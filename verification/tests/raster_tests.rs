use visioncortex::bresenham;
use visioncortex::rasterize_triangle;
use visioncortex::walk_triangle;
use visioncortex::BinaryImage;
use visioncortex::PointI32;
use visioncortex::TriangleRasterizer;

fn collect(mut walk: TriangleRasterizer) -> Vec<PointI32> {
    let mut points = Vec::new();
    while let Some(p) = walk.next() {
        points.push(p);
    }
    points
}

#[test]
fn test_triangle_1() {
    assert_eq!(
        collect(walk_triangle(&[PointI32::new(0, 0), PointI32::new(4, 4), PointI32::new(4, 0)])),
        vec![
            PointI32::new(0, 0),
            PointI32::new(1, 0),
            PointI32::new(2, 0),
            PointI32::new(3, 0),
            PointI32::new(4, 0),
            PointI32::new(1, 1),
            PointI32::new(2, 1),
            PointI32::new(3, 1),
            PointI32::new(4, 1),
            PointI32::new(2, 2),
            PointI32::new(3, 2),
            PointI32::new(4, 2),
            PointI32::new(3, 3),
            PointI32::new(4, 3),
            PointI32::new(4, 4),
        ]
    );
}

#[test]
fn test_triangle_2() {
    assert_eq!(
        collect(walk_triangle(&[PointI32::new(1, 1), PointI32::new(8, 4), PointI32::new(4, 8)])),
        vec![
            PointI32::new(1, 1),
            PointI32::new(2, 1),
            PointI32::new(1, 2),
            PointI32::new(2, 2),
            PointI32::new(3, 2),
            PointI32::new(4, 2),
            PointI32::new(2, 3),
            PointI32::new(3, 3),
            PointI32::new(4, 3),
            PointI32::new(5, 3),
            PointI32::new(6, 3),
            PointI32::new(2, 4),
            PointI32::new(3, 4),
            PointI32::new(4, 4),
            PointI32::new(5, 4),
            PointI32::new(6, 4),
            PointI32::new(7, 4),
            PointI32::new(8, 4),
            PointI32::new(3, 5),
            PointI32::new(4, 5),
            PointI32::new(5, 5),
            PointI32::new(6, 5),
            PointI32::new(7, 5),
            PointI32::new(3, 6),
            PointI32::new(4, 6),
            PointI32::new(5, 6),
            PointI32::new(6, 6),
            PointI32::new(4, 7),
            PointI32::new(5, 7),
            PointI32::new(4, 8),
        ]
    );
}

#[test]
fn rasterize_triangle_1() {
    let mut image = BinaryImage::new_w_h(5, 5);
    rasterize_triangle(
        &[PointI32::new(0, 0), PointI32::new(4, 4), PointI32::new(4, 0)],
        &mut image,
    );
    assert_eq!(
        image.to_string(),
        "*****\n".to_owned() + "-****\n" + "--***\n" + "---**\n" + "----*\n"
    );
}

#[test]
fn rasterize_triangle_2() {
    let mut image = BinaryImage::new_w_h(5, 5);
    rasterize_triangle(
        &[PointI32::new(0, 0), PointI32::new(0, 4), PointI32::new(4, 4)],
        &mut image,
    );
    assert_eq!(
        image.to_string(),
        "*----\n".to_owned() + "**---\n" + "***--\n" + "****-\n" + "*****\n"
    );
}

#[test]
fn rasterize_triangle_3() {
    let mut image = BinaryImage::new_w_h(6, 11);
    rasterize_triangle(
        &[PointI32::new(0, 0), PointI32::new(5, 5), PointI32::new(0, 10)],
        &mut image,
    );
    assert_eq!(
        image.to_string(),
        "*-----\n".to_owned()
            + "**----\n"
            + "***---\n"
            + "****--\n"
            + "*****-\n"
            + "******\n"
            + "*****-\n"
            + "****--\n"
            + "***---\n"
            + "**----\n"
            + "*-----\n"
    );
}

#[test]
fn bresenham_line_of_slope_one_third() {
    let mut line = bresenham(PointI32::new(0, 0), PointI32::new(6, 2));
    let mut points = Vec::new();
    while let Some(p) = line.next() {
        points.push((p.x, p.y));
    }
    assert_eq!(points, vec![(0, 0), (1, 0), (2, 1), (3, 1), (4, 1), (5, 2), (6, 2)]);
}

#[test]
fn bresenham_line_of_one_point_and_backwards() {
    let mut line = bresenham(PointI32::new(3, 3), PointI32::new(3, 3));
    assert_eq!(line.next(), Some(PointI32::new(3, 3)));
    assert_eq!(line.next(), None);
    let mut back = bresenham(PointI32::new(2, 0), PointI32::new(0, 0));
    let mut points = Vec::new();
    while let Some(p) = back.next() {
        points.push((p.x, p.y));
    }
    assert_eq!(points, vec![(2, 0), (1, 0), (0, 0)]);
}
