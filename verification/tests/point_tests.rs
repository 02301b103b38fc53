use visioncortex::NumberFormat;
use visioncortex::PointI32;
use visioncortex::ToSvgString;

#[test]
fn test_round_i32() {
    let z = PointI32 { x: 0, y: 2 };
    assert_eq!(z.to_svg_string(None), "0,2");
    assert_eq!(z.to_svg_string(Some(5)), "0,2");

    let r = PointI32 { x: 1, y: 2 };
    assert_eq!(r.to_svg_string(None), "1,2");
    assert_eq!(r.to_svg_string(Some(5)), "1,2");
}

#[test]
/// rotate clockwise by 90 degrees
fn pointi32_rotate() {
    let p = PointI32 { x: 1, y: 0 };
    let r = p.rotate_90deg(PointI32::default(), true);
    assert_eq!(PointI32::new(0, 1), r);
}

#[test]
fn rotate_counter_clockwise_about_a_point() {
    let p = PointI32 { x: 3, y: 1 };
    let r = p.rotate_90deg(PointI32::new(1, 1), false);
    assert_eq!(PointI32::new(1, -1), r);
}

#[test]
fn point_arithmetic() {
    let a = PointI32::new(3, -4);
    let b = PointI32::new(1, 2);
    assert_eq!(a + b, PointI32::new(4, -2));
    assert_eq!(a - b, PointI32::new(2, -6));
    assert_eq!(-a, PointI32::new(-3, 4));
    assert_eq!(a.dot(b), 3 - 8);
    assert_eq!(a.translate(b), PointI32::new(4, -2));
    let u = b.to_point_usize();
    assert_eq!((u.x, u.y), (1usize, 2usize));
}

#[test]
fn numbers_are_written_in_decimal() {
    assert_eq!(<i32 as NumberFormat>::number_format(0, None), "0");
    assert_eq!(<i32 as NumberFormat>::number_format(-120, Some(3)), "-120");
    assert_eq!(<i32 as NumberFormat>::number_format(i32::MIN, None), "-2147483648");
    assert_eq!(<i32 as NumberFormat>::number_format(i32::MAX, None), "2147483647");
    assert_eq!(PointI32::new(-7, 10).to_svg_string(None), "-7,10");
}
