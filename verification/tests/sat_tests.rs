use visioncortex::Color;
use visioncortex::ColorImage;
use visioncortex::PointI32;
use visioncortex::SummedAreaTable;

fn create_color_image_helper(width: usize, height: usize, pixels: Vec<u8>) -> ColorImage {
    let mut image = ColorImage::new_w_h(width, height);
    for (i, &val) in pixels.iter().enumerate() {
        image.set_pixel_at(i, &Color::new(val, val, val));
    }
    image
}

fn wikipedia_pixels() -> Vec<u8> {
    vec![
        31, 2, 4, 33, 5, 36, 12, 26, 9, 10, 29, 25, 13, 17, 21, 22, 20, 18, 24, 23, 15, 16, 14, 19,
        30, 8, 28, 27, 11, 7, 1, 35, 34, 3, 32, 6,
    ]
}

#[test]
fn sat_construct() {
    // Example from wikipedia
    let pixels = wikipedia_pixels();
    let image = create_color_image_helper(6, 6, pixels);
    let sat = SummedAreaTable::from_color_image(&image);
    assert_eq!(sat.get_bot_right_sum(0, 0), 31);
    assert_eq!(sat.get_bot_right_sum(1, 1), 71);
    assert_eq!(sat.get_bot_right_sum(1, 2), 101);
    assert_eq!(sat.get_bot_right_sum(5, 0), 111);
    assert_eq!(sat.get_bot_right_sum(0, 5), 111);
    assert_eq!(sat.get_bot_right_sum(5, 5), 666);
    assert_eq!(sat.get_bot_right_sum(4, 4), 450);
    assert_eq!(sat.get_bot_right_sum(1, 4), 186);
    assert_eq!(sat.get_bot_right_sum(4, 2), 254);
}

#[test]
fn sat_region_sum() {
    // Example from wikipedia
    let pixels = wikipedia_pixels();
    let image = create_color_image_helper(6, 6, pixels);
    let sat = SummedAreaTable::from_color_image(&image);
    assert_eq!(
        sat.get_region_sum_top_left_bot_right(PointI32::new(2, 3), PointI32::new(4, 4)),
        111
    );
    assert_eq!(sat.get_region_sum_x_y_w_h(2, 3, 3, 2), 111);
    assert_eq!(sat.get_region_sum_x_y_w_h(0, 0, 6, 6), 666);
    assert_eq!(sat.get_region_sum_x_y_w_h(0, 0, 1, 6), 111);
    assert_eq!(sat.get_region_sum_x_y_w_h(0, 0, 6, 1), 111);
    assert_eq!(sat.get_region_sum_x_y_w_h(2, 4, 3, 2), 135);
    assert_eq!(sat.get_region_sum_x_y_w_h(1, 2, 3, 4), 249);
}

#[test]
fn sat_outside_is_zero() {
    let image = create_color_image_helper(2, 1, vec![3, 4]);
    let sat = SummedAreaTable::from_color_image(&image);
    assert_eq!(sat.get_bot_right_sum(-1, 0), 0);
    assert_eq!(sat.get_bot_right_sum(2, 0), 0);
    assert_eq!(sat.get_bot_right_sum(1, 0), 7);
}
