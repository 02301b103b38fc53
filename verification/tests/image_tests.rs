use visioncortex::BinaryImage;
use visioncortex::BoundingRect;
use visioncortex::Color;
use visioncortex::ColorImage;
use visioncortex::MonoImage;
use visioncortex::PointI32;
use visioncortex::Shape;

#[test]
fn binary_image_crop() {
    let mut image = BinaryImage::new_w_h(4, 4);
    image.set_pixel(1, 1, true);
    image.set_pixel(2, 2, true);
    let crop = image.crop();
    assert_eq!(crop.width, 2);
    assert_eq!(crop.height, 2);
    assert_eq!(crop.get_pixel(0, 0), true);
    assert_eq!(crop.get_pixel(0, 1), false);
    assert_eq!(crop.get_pixel(1, 0), false);
    assert_eq!(crop.get_pixel(1, 1), true);
}

#[test]
fn image_as_string() {
    let mut image = BinaryImage::new_w_h(2, 2);
    image.set_pixel(0, 0, true);
    image.set_pixel(1, 1, true);
    assert_eq!(image.to_string(), "*-\n".to_owned() + "-*\n");
    let recover = BinaryImage::from_string(&image.to_string());
    assert_eq!(image.width, recover.width);
    assert_eq!(image.height, recover.height);
    for y in 0..image.height {
        for x in 0..image.width {
            assert_eq!(image.get_pixel(x, y), recover.get_pixel(x, y));
        }
    }
}

#[test]
fn image_diff() {
    let mut a = BinaryImage::new_w_h(2, 2);
    a.set_pixel(0, 0, true);
    let mut b = BinaryImage::new_w_h(2, 2);
    b.set_pixel(1, 1, true);
    assert_eq!(a.diff_and_count(&b), 2);

    let mut a = BinaryImage::new_w_h(3, 3);
    a.set_pixel(1, 1, true);
    let mut b = BinaryImage::new_w_h(3, 3);
    b.set_pixel(1, 1, true);
    assert_eq!(a.diff_and_count(&b), 0);

    let mut a = BinaryImage::new_w_h(3, 3);
    a.set_pixel(0, 0, true);
    a.set_pixel(1, 1, true);
    let mut b = BinaryImage::new_w_h(3, 3);
    b.set_pixel(1, 1, true);
    b.set_pixel(2, 2, true);
    assert_eq!(a.diff_and_count(&b), 2);
}

#[test]
fn negative_image() {
    assert_eq!(
        BinaryImage::from_string(&("*-*\n".to_owned() + "-*-\n" + "*-*\n")).negative().to_string(),
        BinaryImage::from_string(&("-*-\n".to_owned() + "*-*\n" + "-*-\n")).to_string()
    );
}

#[test]
fn reads_outside_are_unset_and_writes_outside_are_dropped() {
    let mut image = BinaryImage::new_w_h(2, 2);
    assert!(!image.set_pixel_safe(2, 0, true));
    assert!(!image.set_pixel_safe(-1, 0, true));
    assert!(image.set_pixel_safe(1, 0, true));
    image.set_pixel_at_safe(PointI32::new(5, 5), true);
    image.set_pixel_at(PointI32::new(0, 1), true);
    image.set_pixel_index(0, true);
    assert_eq!(image.to_string(), "**\n*-\n");
    assert!(image.get_pixel_safe(1, 0));
    assert!(!image.get_pixel_safe(2, 0));
    assert!(!image.get_pixel_safe(0, -1));
    assert!(image.get_pixel_at_safe(PointI32::new(0, 1)));
    assert!(!image.get_pixel_at_safe(PointI32::new(0, 2)));
    assert!(image.get_pixel_at(PointI32::new(0, 0)));
    assert_eq!(image.area(), 3);
}

#[test]
fn set_operations_on_images() {
    let a = BinaryImage::from_string("**-\n---\n");
    let b = BinaryImage::from_string("-**\n--*\n");
    assert_eq!(a.diff(&b).to_string(), "*-*\n--*\n");
    assert_eq!(a.union(&b).to_string(), "***\n--*\n");
    assert_eq!(a.intersect(&b).to_string(), "-*-\n---\n");
    assert_eq!(a.negative().negative().to_string(), a.to_string());
    assert_eq!(BinaryImage::popcount(0), 0);
    assert_eq!(BinaryImage::popcount(0b1011), 3);
    assert_eq!(BinaryImage::popcount(u32::MAX), 32);
}

#[test]
fn bounding_rect_uncrop_and_paste() {
    let image = BinaryImage::from_string("----\n-**-\n----\n");
    assert_eq!(image.bounding_rect(), BoundingRect { left: 1, top: 1, right: 3, bottom: 2 });
    assert_eq!(BinaryImage::new_w_h(3, 3).bounding_rect(), BoundingRect::default());
    let small = image.crop();
    assert_eq!(small.to_string(), "**\n");
    assert_eq!(small.uncrop(5, 4).to_string(), "-----\n-**--\n-----\n-----\n");
    let part = image.crop_with_rect(BoundingRect { left: 2, top: 0, right: 4, bottom: 2 });
    assert_eq!(part.to_string(), "--\n*-\n");
    let mut canvas = BinaryImage::new_w_h(4, 3);
    canvas.paste_from(&small, PointI32::new(2, 2));
    assert_eq!(canvas.to_string(), "----\n----\n--**\n");
    let copy = canvas.duplicate();
    assert_eq!(copy.to_string(), canvas.to_string());
}

#[test]
fn text_with_short_lines_and_carriage_returns() {
    let image = BinaryImage::from_string("**-\r\n*\n");
    assert_eq!(image.width, 3);
    assert_eq!(image.height, 2);
    assert_eq!(image.to_string(), "**-\n*--\n");
    let empty = BinaryImage::from_string("");
    assert_eq!((empty.width, empty.height), (0, 0));
}

#[test]
fn colour_image_pixels() {
    let mut image = ColorImage::new_w_h(2, 2);
    let red = Color::new(255, 0, 0);
    image.set_pixel(1, 0, &red);
    image.set_pixel_at(2, &Color::new_rgba(1, 2, 3, 4));
    assert_eq!(image.get_pixel(1, 0), red);
    assert_eq!(image.get_pixel_at(2), Color::new_rgba(1, 2, 3, 4));
    assert_eq!(image.get_pixel_safe(0, 1), Some(Color::new_rgba(1, 2, 3, 4)));
    assert_eq!(image.get_pixel_safe(2, 0), None);
    assert_eq!(image.get_pixel_at_point_safe(PointI32::new(-1, 0)), None);
    assert_eq!(image.pixels[4..8], [255, 0, 0, 255]);
    let mut seen = Vec::new();
    let mut it = image.iter();
    while let Some(c) = it.next() {
        seen.push(c);
    }
    assert_eq!(seen.len(), 4);
    assert_eq!(seen[1], red);
    let binary = image.to_binary_image(|c| c.r > 0);
    assert_eq!(binary.to_string(), "-*\n*-\n");
    let back = binary.to_color_image();
    assert_eq!(back.get_pixel(1, 0), Color::new(0, 0, 0));
    assert_eq!(back.get_pixel(0, 0), Color::new(255, 255, 255));
    assert_eq!(ColorImage::new().pixels.len(), 0);
}

#[test]
fn scalar_field_pixels() {
    let mut field = MonoImage::new_w_h(3, 2);
    assert_eq!(field.get_pixel(2, 1), 0);
    field.set_pixel(2, 1, 77);
    assert_eq!(field.get_pixel(2, 1), 77);
    assert_eq!(field.get_pixel(1, 1), 0);
}

#[test]
fn boundary_of_a_shape() {
    let image = BinaryImage::from_string("-----\n-***-\n-***-\n-***-\n-----\n");
    let (boundary, first, length) = Shape::image_boundary_and_position_length(&image);
    assert_eq!(boundary.to_string(), "-----\n-***-\n-*-*-\n-***-\n-----\n");
    assert_eq!(first, Some(PointI32::new(1, 1)));
    assert_eq!(length, 8);
    assert_eq!(Shape::image_boundary(&image).to_string(), boundary.to_string());
    let list = Shape::image_boundary_list(&image);
    assert_eq!(list.len(), 8);
    assert_eq!(list[0], PointI32::new(1, 1));
    assert_eq!(list[3], PointI32::new(1, 2));
    let by_column = Shape::image_boundary_list_transpose(&image, true);
    assert_eq!(by_column.len(), 8);
    assert_eq!(by_column[1], PointI32::new(1, 2));
    assert_eq!(by_column[3], PointI32::new(2, 1));
    let shape = Shape { image };
    assert_eq!(shape.rect(), BoundingRect { left: 0, top: 0, right: 5, bottom: 5 });
}

#[test]
fn an_operation_combines_the_stores_byte_by_byte() {
    let a = BinaryImage::from_string(&("*-*\n".to_owned() + "-*-\n"));
    let b = BinaryImage::from_string(&("**-\n".to_owned() + "---\n"));
    let xor = a.operation(&b, |x, y| x ^ y);
    assert_eq!(xor.to_string(), a.diff(&b).to_string());
    assert_eq!(xor.to_string(), "-**\n".to_owned() + "-*-\n");
    let first = a.operation(&b, |x, _| x);
    assert_eq!(first.to_string(), a.to_string());
}
