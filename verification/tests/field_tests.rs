use visioncortex::Field;

#[test]
fn empty() {
    let mut field = Field::<i32>::default();
    assert_eq!(field.width(), 0);
    assert_eq!(field.height(), 0);
    assert_eq!(field.peek(0), None);
    assert_eq!(field.peek_mut(0), None);
}

#[test]
fn two_by_three() {
    let mut field = Field::with_initial(3, 2, 1);
    for i in 0..6 {
        assert_eq!(field.replace(i, i), Some(1));
    }
    for i in 0..6 {
        assert_eq!(field.peek(i), Some(&i));
    }
}

#[test]
fn field_from_vec_checks_the_size() {
    assert!(Field::with_vec(2, 2, vec![1, 2, 3]).is_none());
    let field = Field::with_vec(2, 2, vec![1, 2, 3, 4]).unwrap();
    assert_eq!(field.locate(3), (1, 1));
    assert_eq!(field.index_at(1, 1), 3);
    assert_eq!(field.get(3), Some(4));
    assert_eq!(field.get(4), None);
    assert_eq!(field.len(), 4);
}

#[test]
fn field_set_and_default() {
    let mut field: Field<u8> = Field::with_default(2, 1);
    assert_eq!(field.get(0), Some(0));
    field.set(1, &9);
    field.set(2, &9);
    assert_eq!(field.get(1), Some(9));
    assert_eq!(field.replace(5, 1), None);
    if let Some(slot) = field.peek_mut(0) {
        *slot = 3;
    }
    assert_eq!(field.peek(0), Some(&3));
}

#[test]
fn iter_walks_the_items_row_by_row() {
    let field = Field::with_vec(2, 2, vec![5, 6, 7, 8]).unwrap();
    let seen: Vec<i32> = field.iter().copied().collect();
    assert_eq!(seen, vec![5, 6, 7, 8]);
}

#[test]
fn iter_mut_changes_items_in_place() {
    let mut field = Field::with_vec(3, 1, vec![1, 2, 3]).unwrap();
    for item in field.iter_mut() {
        *item *= 10;
    }
    assert_eq!(field.len(), 3);
    assert_eq!(field.width(), 3);
    assert_eq!(field.height(), 1);
    assert_eq!(field.get(0), Some(10));
    assert_eq!(field.get(1), Some(20));
    assert_eq!(field.get(2), Some(30));
}
