use visioncortex::BoundingRect;
use visioncortex::PointI32;
use visioncortex::RectangularTransform;
use visioncortex::Transform;

#[test]
fn rectangular_transform() {
    assert_eq!(
        RectangularTransform::new_rect_rect(
            BoundingRect::new_x_y_w_h(1, 1, 2, 2),
            BoundingRect::new_x_y_w_h(2, 2, 2, 2)
        )
        .transform(&PointI32 { x: 2, y: 2 }),
        PointI32 { x: 3, y: 3 }
    );

    assert_eq!(
        RectangularTransform::new_rect_rect(
            BoundingRect::new_x_y_w_h(1, 1, 2, 2),
            BoundingRect::new_x_y_w_h(2, 2, 4, 4)
        )
        .transform(&PointI32 { x: 2, y: 2 }),
        PointI32 { x: 4, y: 4 }
    );
}

#[test]
fn transform_rounds_towards_zero() {
    let t = RectangularTransform::new_rect_rect(
        BoundingRect::new_x_y_w_h(0, 0, 2, 2),
        BoundingRect::new_x_y_w_h(0, 0, 1, 1),
    );
    assert_eq!(t.transform(&PointI32 { x: -3, y: 3 }), PointI32 { x: -1, y: 1 });
    assert_eq!(
        t.transform_rect(&BoundingRect { left: -3, top: 3, right: 4, bottom: 8 }),
        BoundingRect { left: -1, top: 1, right: 2, bottom: 4 }
    );
}

#[test]
fn transform_without_rects_changes_nothing() {
    let t = RectangularTransform::new();
    assert_eq!(t.transform(&PointI32 { x: 5, y: -6 }), PointI32 { x: 5, y: -6 });
    let shift = RectangularTransform::new_point_point(PointI32::new(1, 1), PointI32::new(4, 6));
    assert_eq!(shift.transform(&PointI32 { x: 2, y: 2 }), PointI32 { x: 5, y: 7 });
    let from_origin = RectangularTransform::new_point(&PointI32::new(4, 6));
    assert_eq!(from_origin.transform(&PointI32 { x: 2, y: 2 }), PointI32 { x: 6, y: 8 });
}
