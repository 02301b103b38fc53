use visioncortex::bound::enclosing_bound;
use visioncortex::bound::merge_expand;
use visioncortex::BoundingRect;
use visioncortex::PointI32;

#[test]
fn bounding_rect_1x1() {
    let mut rect = BoundingRect::default();
    rect.add_x_y(0, 0);
    assert_eq!(rect.left, 0);
    assert_eq!(rect.top, 0);
    assert_eq!(rect.right, 1);
    assert_eq!(rect.bottom, 1);
    assert_eq!(rect.width(), 1);
    assert_eq!(rect.height(), 1);
}

#[test]
fn bounding_rect_2x2() {
    let mut rect = BoundingRect::default();
    rect.add_x_y(1, 1);
    rect.add_x_y(2, 2);
    assert_eq!(rect.left, 1);
    assert_eq!(rect.top, 1);
    assert_eq!(rect.right, 3);
    assert_eq!(rect.bottom, 3);
    assert_eq!(rect.width(), 2);
    assert_eq!(rect.height(), 2);
}

#[test]
fn bounding_rect_aspect_ratio_doubled() {
    let mut rect = BoundingRect::default();
    rect.add_x_y(0, 0);
    rect.add_x_y(1, 0);
    assert_eq!(rect.aspect_ratio_doubled(), 4);
}

#[test]
fn bounding_rect_clip() {
    let mut rect = BoundingRect::default();
    rect.add_x_y(1, 1);
    rect.add_x_y(4, 4);
    rect.clip(BoundingRect::new_x_y_w_h(0, 0, 3, 3));
    assert_eq!(rect, BoundingRect::new_x_y_w_h(1, 1, 2, 2));
}

#[test]
fn point_on_boundary() {
    // GIVEN a generic bounding rect and its corners
    let rect = BoundingRect::new_x_y_w_h(0, 0, 5, 6);
    let top_left = PointI32::new(rect.left, rect.top);
    let top_right = PointI32::new(rect.right, rect.top);
    let bottom_left = PointI32::new(rect.left, rect.bottom);
    let bottom_right = PointI32::new(rect.right, rect.bottom);

    // WHEN the tolerance for boundary check is the strictest
    let t = 0;

    // THEN its corners are on its boundary
    assert!(rect.have_point_on_boundary(top_left, t));
    assert!(rect.have_point_on_boundary(top_right, t));
    assert!(rect.have_point_on_boundary(bottom_left, t));
    assert!(rect.have_point_on_boundary(bottom_right, t));

    // THEN points inside are not on its boundary
    assert!(!rect.have_point_on_boundary(top_left.translate(PointI32::new(1, 1)), t));
    assert!(!rect.have_point_on_boundary(top_right.translate(PointI32::new(-1, 1)), t));

    // THEN points outside are not on its boundary
    assert!(!rect.have_point_on_boundary(bottom_left.translate(PointI32::new(-1, 1)), t));
    assert!(!rect.have_point_on_boundary(bottom_right.translate(PointI32::new(-1, -1)), t));
}

#[test]
fn point_near_boundary() {
    // GIVEN a generic bounding rect and its corners
    let rect = BoundingRect::new_x_y_w_h(0, 0, 5, 6);
    let top_left = PointI32::new(rect.left, rect.top);
    let top_right = PointI32::new(rect.right, rect.top);
    let bottom_left = PointI32::new(rect.left, rect.bottom);
    let bottom_right = PointI32::new(rect.right, rect.bottom);

    // GIVEN points on its boundary
    let p1 = PointI32::new(rect.left, rect.top + 2);
    let p2 = PointI32::new(rect.left + 3, rect.bottom);

    // THEN the nearest points of those points should be correctly identified
    assert_eq!(top_left + PointI32::new(1, 1), rect.get_closest_point_inside(top_left));
    assert_eq!(top_right + PointI32::new(-1, 1), rect.get_closest_point_inside(top_right));
    assert_eq!(bottom_left + PointI32::new(1, -1), rect.get_closest_point_inside(bottom_left));
    assert_eq!(bottom_right + PointI32::new(-1, -1), rect.get_closest_point_inside(bottom_right));
    assert_eq!(p1 + PointI32::new(1, 0), rect.get_closest_point_inside(p1));
    assert_eq!(p2 + PointI32::new(0, -1), rect.get_closest_point_inside(p2));

    assert_eq!(top_left - PointI32::new(1, 1), rect.get_closest_point_outside(top_left));
    assert_eq!(top_right - PointI32::new(-1, 1), rect.get_closest_point_outside(top_right));
    assert_eq!(bottom_left - PointI32::new(1, -1), rect.get_closest_point_outside(bottom_left));
    assert_eq!(bottom_right - PointI32::new(-1, -1), rect.get_closest_point_outside(bottom_right));
    assert_eq!(p1 - PointI32::new(1, 0), rect.get_closest_point_outside(p1));
    assert_eq!(p2 - PointI32::new(0, -1), rect.get_closest_point_outside(p2));
}

#[test]
fn get_vec_of_boundary_points() {
    // GIVEN a generic bounding rect and some of its corners
    let rect = BoundingRect::new_x_y_w_h(0, 0, 5, 6);
    let top_left = PointI32::new(rect.left, rect.top);
    let bottom_right = PointI32::new(rect.right, rect.bottom);

    // GIVEN points on its boundary
    let p1 = PointI32::new(rect.left, rect.top + 2);
    let p2 = PointI32::new(rect.left + 3, rect.bottom);

    // THEN the vecs of boundary points should be correctly extracted
    let len = ((rect.width() + rect.height()) * 2) as usize;

    let boundary_points = rect.get_boundary_points_from(top_left, true);
    assert_eq!(len, boundary_points.len());
    assert_eq!(top_left, boundary_points[0]);
    assert_eq!(top_left + PointI32::new(1, 0), boundary_points[1]);
    assert_eq!(top_left + PointI32::new(0, 1), boundary_points[len - 1]);

    let boundary_points = rect.get_boundary_points_from(bottom_right, false);
    assert_eq!(len, boundary_points.len());
    assert_eq!(bottom_right, boundary_points[0]);
    assert_eq!(bottom_right + PointI32::new(0, -1), boundary_points[1]);
    assert_eq!(bottom_right + PointI32::new(-1, 0), boundary_points[len - 1]);

    let boundary_points = rect.get_boundary_points_from(p1, true);
    assert_eq!(len, boundary_points.len());
    assert_eq!(p1, boundary_points[0]);
    assert_eq!(p1 + PointI32::new(0, -1), boundary_points[1]);
    assert_eq!(p1 + PointI32::new(0, 1), boundary_points[len - 1]);

    let boundary_points = rect.get_boundary_points_from(p2, false);
    assert_eq!(len, boundary_points.len());
    assert_eq!(p2, boundary_points[0]);
    assert_eq!(p2 + PointI32::new(1, 0), boundary_points[1]);
    assert_eq!(p2 + PointI32::new(-1, 0), boundary_points[len - 1]);
}

#[test]
fn enclosing_bound_test() {
    let mut a = BoundingRect::default();
    a.add_x_y(1, 1);
    let mut b = BoundingRect::default();
    b.add_x_y(2, 2);
    assert_eq!(
        enclosing_bound(&[a, b]),
        BoundingRect { left: 1, top: 1, right: 3, bottom: 3 }
    );
}

#[test]
fn merge_expand_noop() {
    let mut a = BoundingRect::default();
    a.add_x_y(1, 1);
    let mut b = BoundingRect::default();
    b.add_x_y(3, 3);
    assert_eq!(merge_expand(vec![a, b], 0, 0), [[b], [a]]);
}

#[test]
fn merge_expand_merged() {
    let mut a = BoundingRect::default();
    a.add_x_y(1, 1);
    let mut b = BoundingRect::default();
    b.add_x_y(3, 3);
    assert_eq!(merge_expand(vec![a, b], 1, 1), [[b, a]]);
}

#[test]
fn merge_horizontal() {
    let mut a = BoundingRect::default();
    a.add_x_y(1, 1);
    let mut b = BoundingRect::default();
    b.add_x_y(3, 1);
    assert_eq!(merge_expand(vec![a, b], 1, 0), [[b, a]]);
}

#[test]
fn merge_horizontal_noop() {
    let mut a = BoundingRect::default();
    a.add_x_y(1, 1);
    let mut b = BoundingRect::default();
    b.add_x_y(1, 3);
    assert_eq!(merge_expand(vec![a, b], 1, 0), [[b], [a]]);
}

#[test]
fn merge_vertical() {
    let mut a = BoundingRect::default();
    a.add_x_y(1, 1);
    let mut b = BoundingRect::default();
    b.add_x_y(1, 3);
    assert_eq!(merge_expand(vec![a, b], 0, 1), [[b, a]]);
}

#[test]
fn merge_vertical_noop() {
    let mut a = BoundingRect::default();
    a.add_x_y(1, 1);
    let mut b = BoundingRect::default();
    b.add_x_y(3, 1);
    assert_eq!(merge_expand(vec![a, b], 0, 1), [[b], [a]]);
}

#[test]
fn rect_of_no_cell_is_zero_and_empty() {
    let rect = BoundingRect::default();
    assert!(rect.is_empty());
    assert_eq!(rect, BoundingRect { left: 0, top: 0, right: 0, bottom: 0 });
}

#[test]
fn rect_with_one_zero_dimension_is_not_empty() {
    let rect = BoundingRect { left: 2, top: 3, right: 2, bottom: 7 };
    assert!(!rect.is_empty());
    assert_eq!(rect.width(), 0);
    assert_eq!(rect.height(), 4);
}

#[test]
fn rect_merge_and_hit() {
    let mut a = BoundingRect::new_x_y_w_h(0, 0, 2, 2);
    let b = BoundingRect::new_x_y_w_h(5, 6, 1, 1);
    assert!(!a.hit(b));
    a.merge(b);
    assert_eq!(a, BoundingRect { left: 0, top: 0, right: 6, bottom: 7 });
    assert!(a.hit(b));
    a.merge(BoundingRect::default());
    assert_eq!(a, BoundingRect { left: 0, top: 0, right: 6, bottom: 7 });
    let mut empty = BoundingRect::default();
    empty.merge(b);
    assert_eq!(empty, b);
}

#[test]
fn rect_center_squared_and_distance() {
    let rect = BoundingRect::new_x_y_w_h(0, 0, 5, 2);
    assert_eq!(rect.center(), PointI32::new(2, 1));
    let negative = BoundingRect { left: -3, top: -3, right: 0, bottom: 0 };
    assert_eq!(negative.center(), PointI32::new(-2, -2));
    let square = rect.squared();
    assert_eq!(square, BoundingRect { left: 0, top: -1, right: 5, bottom: 4 });
    let other = BoundingRect::new_x_y_w_h(10, 10, 2, 2);
    assert_eq!(rect.sq_dist(other), 81 + 100);
}

#[test]
fn rect_translate_and_corners() {
    let mut rect = BoundingRect::new_x_y_w_h(1, 2, 3, 4);
    rect.translate(PointI32::new(10, -2));
    assert_eq!(rect, BoundingRect { left: 11, top: 0, right: 14, bottom: 4 });
    assert_eq!(rect.left_top(), PointI32::new(11, 0));
    assert_eq!(rect.top_left(), PointI32::new(11, 0));
    assert_eq!(rect.top_right(), PointI32::new(14, 0));
    assert_eq!(rect.bottom_left(), PointI32::new(11, 4));
    assert_eq!(rect.right_bottom(), PointI32::new(14, 4));
    assert_eq!(rect.bottom_right(), PointI32::new(14, 4));
    rect.clear();
    assert!(rect.is_empty());
}

#[test]
fn rect_inside_and_tolerance() {
    let rect = BoundingRect::new_x_y_w_h(0, 0, 5, 6);
    assert!(rect.have_point_inside(PointI32::new(1, 1)));
    assert!(!rect.have_point_inside(PointI32::new(0, 1)));
    assert!(rect.have_point_on_boundary(PointI32::new(7, 0), 2));
    assert!(!rect.have_point_on_boundary(PointI32::new(8, 0), 2));
    assert!(rect.have_point_on_boundary_or_inside(PointI32::new(2, 2), 0));
    assert!(!rect.have_point_on_boundary_or_inside(PointI32::new(9, 9), 0));
}

#[test]
fn boundary_walk_of_a_narrow_rect() {
    let rect = BoundingRect::new_x_y_w_h(0, 0, 1, 2);
    let points = rect.get_boundary_points_from(PointI32::new(0, 0), true);
    assert_eq!(
        points,
        vec![
            PointI32::new(0, 0),
            PointI32::new(1, 0),
            PointI32::new(1, 1),
            PointI32::new(1, 2),
            PointI32::new(0, 2),
            PointI32::new(0, 1),
        ]
    );
    let mut back = rect.get_boundary_points_from(PointI32::new(0, 0), false);
    back.remove(0);
    back.reverse();
    let mut forth = points.clone();
    forth.remove(0);
    assert_eq!(back, forth);
}
