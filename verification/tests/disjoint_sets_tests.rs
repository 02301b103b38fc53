use visioncortex::disjoint_sets::group_by;
use visioncortex::disjoint_sets::group_by_cached_key;
use visioncortex::Forests;

#[test]
fn union_find() {
    let mut forests = Forests::new();
    for i in 1..11 {
        forests.make_set(i);
    }
    forests.union(&2, &4);
    forests.union(&5, &7);
    forests.union(&1, &3);
    forests.union(&8, &9);
    forests.union(&1, &2);
    forests.union(&5, &6);
    forests.union(&2, &3);

    assert_eq!(forests.find_set(&1), forests.find_set(&2));
    assert_eq!(forests.find_set(&2), forests.find_set(&3));
    assert_eq!(forests.find_set(&3), forests.find_set(&4));

    assert_eq!(forests.find_set(&5), forests.find_set(&6));
    assert_eq!(forests.find_set(&6), forests.find_set(&7));

    assert_eq!(forests.find_set(&8), forests.find_set(&9));

    assert_ne!(forests.find_set(&10), forests.find_set(&1));
    assert_ne!(forests.find_set(&1), forests.find_set(&5));
    assert_ne!(forests.find_set(&6), forests.find_set(&8));

    assert_eq!(forests.count_sets(), 4);

    let items: Vec<_> = (1..11).collect();
    let groups = forests.group_items(&items);

    for group in groups {
        if group.len() == 4 {
            assert_eq!(group, [0, 1, 2, 3]);
        } else if group.len() == 3 {
            assert_eq!(group, [4, 5, 6]);
        } else if group.len() == 2 {
            assert_eq!(group, [7, 8]);
        } else {
            assert_eq!(group, [9]);
        }
    }
}

#[test]
fn group_items() {
    let points = vec![1, 1, 7, 9, 24, 1, 4, 7, 3, 8];
    let groups = group_by(points, |&x, &y| (x - y) * (x - y) < 2);
    // should be grouped as below:
    // {1, 1, 1}, {3, 4}, {7, 7, 8, 9}, {24}
    for mut group in groups {
        println!("{:?}", group);
        group.sort();
        if group.len() == 4 {
            assert_eq!(group, [7, 7, 8, 9]);
        } else if group.len() == 3 {
            assert_eq!(group, [1, 1, 1]);
        } else if group.len() == 2 {
            assert_eq!(group, [3, 4]);
        } else {
            assert_eq!(group, [24]);
        }
    }
}

#[test]
fn group_cached() {
    let points = vec![1, 1, 7, 9, 24, 1, 4, 7, 3, 8];
    let groups = group_by_cached_key(points, |&x| x, |&x, &y| (x - y) * (x - y) < 2);
    // should be grouped as below:
    // {1, 1, 1}, {3, 4}, {7, 7, 8, 9}, {24}
    for mut group in groups {
        println!("{:?}", group);
        group.sort();
        if group.len() == 4 {
            assert_eq!(group, [7, 7, 8, 9]);
        } else if group.len() == 3 {
            assert_eq!(group, [1, 1, 1]);
        } else if group.len() == 2 {
            assert_eq!(group, [3, 4]);
        } else {
            assert_eq!(group, [24]);
        }
    }
}

#[test]
fn groups_come_in_reverse_order_of_the_items() {
    let groups = group_by(vec![10, 20, 11, 30], |&x: &i32, &y: &i32| (x - y).abs() < 2);
    assert_eq!(groups, vec![vec![30], vec![11, 10], vec![20]]);
}

#[test]
fn items_without_a_set_form_the_last_group() {
    let mut forests = Forests::new();
    forests.make_set(7u32);
    forests.make_set(8u32);
    forests.union(&7, &8);
    assert_eq!(forests.find_set(&9), None);
    assert_eq!(forests.len(), 2);
    let groups = forests.group_items(&[9, 7, 5, 8]);
    assert_eq!(groups, vec![vec![1, 3], vec![0, 2]]);
    forests.make_set(7u32);
    assert_eq!(forests.len(), 2);
    assert_eq!(forests.count_sets(), 1);
}

#[test]
fn a_union_of_two_sets_leaves_one_set_fewer() {
    let mut forests = Forests::new();
    for i in 0..5u32 {
        forests.make_set(i);
    }
    assert_eq!(forests.count_sets(), 5);
    forests.union(&0, &1);
    assert_eq!(forests.count_sets(), 4);
    // the two are in one set already: nothing changes
    forests.union(&1, &0);
    assert_eq!(forests.count_sets(), 4);
    // no set for 9: nothing changes
    forests.union(&1, &9);
    assert_eq!(forests.count_sets(), 4);
    forests.union(&3, &4);
    forests.union(&4, &0);
    assert_eq!(forests.count_sets(), 2);
    assert_eq!(forests.find_set(&3), forests.find_set(&1));
    assert_ne!(forests.find_set(&2), forests.find_set(&1));
}

#[test]
fn a_group_is_held_together_by_a_chain_of_links() {
    // 1 and 3 are not linked, but both are linked with 2
    let groups = group_by(vec![1, 5, 3, 2], |&x: &i32, &y: &i32| (x - y).abs() < 2);
    assert_eq!(groups, vec![vec![2, 3, 1], vec![5]]);
}

#[test]
fn the_root_of_higher_rank_wins_and_of_equal_ranks_the_second() {
    let mut forests = Forests::new();
    for i in 10..14u32 {
        forests.make_set(i);
    }
    // equal ranks: the second stays on top
    forests.union(&10, &11);
    assert_eq!(forests.find_set(&10), Some(1));
    assert_eq!(forests.find_set(&11), Some(1));
    // the higher rank stays on top, whether it comes first or second
    forests.union(&11, &12);
    assert_eq!(forests.find_set(&12), Some(1));
    forests.union(&13, &10);
    assert_eq!(forests.find_set(&13), Some(1));
    assert_eq!(forests.count_sets(), 1);
}
