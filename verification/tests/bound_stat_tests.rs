use visioncortex::bound::average_height;
use visioncortex::bound::average_width;
use visioncortex::bound::expand;
use visioncortex::bound::overlaps;
use visioncortex::BoundStat;
use visioncortex::BoundingRect;

#[test]
fn averages_and_minima_of_bounds() {
    let a = BoundingRect::new_x_y_w_h(0, 0, 2, 4);
    let b = BoundingRect::new_x_y_w_h(1, 1, 5, 1);
    let stat = BoundStat::calculate(&[a, b]);
    assert_eq!(stat.average_area, (8 + 5) / 2);
    assert_eq!(stat.average_width, 3);
    assert_eq!(stat.average_height, 2);
    assert_eq!(stat.min_width, 2);
    assert_eq!(stat.min_height, 1);
    assert_eq!(average_width(&[a, b]), 3);
    assert_eq!(average_height(&[a, b]), 2);
}

#[test]
fn areas_are_summed_in_wide_numbers() {
    let big = BoundingRect::new_x_y_w_h(0, 0, 60000, 60000);
    let small = BoundingRect::new_x_y_w_h(0, 0, 2, 2);
    let stat = BoundStat::calculate(&[big, small]);
    assert_eq!(stat.average_area, 1_800_000_002);
}

#[test]
fn expand_grows_on_every_side() {
    let b = BoundingRect::new_x_y_w_h(3, 4, 2, 2);
    assert_eq!(expand(b, 1, 2), BoundingRect { left: 2, top: 2, right: 6, bottom: 8 });
    assert!(overlaps(&b, &expand(b, 1, 1)));
}
