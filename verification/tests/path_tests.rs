use visioncortex::path::paths::Path;
use visioncortex::BinaryImage;
use visioncortex::PathI32;
use visioncortex::PathSimplify;
use visioncortex::PathSimplifyMode;
use visioncortex::PathWalker;
use visioncortex::PointI32;
use visioncortex::SpiralWalker;

#[test]
fn paths_test_to_svg_string() {
    let mut path = PathI32::new();
    path.add(PointI32 { x: 0, y: 0 });
    path.add(PointI32 { x: 1, y: 0 });
    path.add(PointI32 { x: 1, y: 1 });
    assert_eq!("M0,0 L1,0 L1,1 ", path.to_svg_string(false, &PointI32::default(), None));
}

#[test]
fn test_to_svg_string_offset() {
    let mut path = PathI32::new();
    path.add(PointI32 { x: 0, y: 0 });
    path.add(PointI32 { x: 1, y: 0 });
    path.add(PointI32 { x: 1, y: 1 });
    assert_eq!("M1,1 L2,1 L2,2 ", path.to_svg_string(false, &PointI32 { x: 1, y: 1 }, None));
}

#[test]
fn test_to_svg_string_closed() {
    let mut path = PathI32::new();
    path.add(PointI32 { x: 0, y: 0 });
    path.add(PointI32 { x: 1, y: 0 });
    path.add(PointI32 { x: 1, y: 1 });
    path.add(PointI32 { x: 0, y: 0 });
    assert_eq!("M0,0 L1,0 L1,1 Z ", path.to_svg_string(true, &PointI32::default(), None));
}

#[test]
fn test_path_to_svg_precision_i32() {
    let path = Path {
        path: vec![PointI32 { x: 0, y: 0 }, PointI32 { x: 2, y: 3 }, PointI32 { x: 4, y: 5 }],
    };
    assert_eq!(
        path.to_svg_string(false, &PointI32 { x: 0, y: 0 }, None),
        "M0,0 L2,3 L4,5 ".to_owned()
    );
    assert_eq!(
        path.to_svg_string(false, &PointI32 { x: 0, y: 0 }, Some(2)),
        "M0,0 L2,3 L4,5 ".to_owned()
    );
}

fn collect_spiral(mut walker: SpiralWalker) -> Vec<(i32, i32)> {
    let mut cells = Vec::new();
    while let Some(cell) = walker.next() {
        cells.push(cell);
    }
    cells
}

#[test]
fn spiral_walker() {
    let walker = SpiralWalker::new(0);
    assert_eq!(Vec::<(i32, i32)>::new(), collect_spiral(walker));
    let walker = SpiralWalker::new(1);
    assert_eq!(vec![(0, 0)], collect_spiral(walker));
    let walker = SpiralWalker::new(2);
    assert_eq!(vec![(0, 0), (1, 0), (1, 1), (0, 1)], collect_spiral(walker));
    let walker = SpiralWalker::new(4);
    assert_eq!(
        vec![
            (1, 1),
            (2, 1),
            (2, 2),
            (1, 2),
            (0, 2),
            (0, 1),
            (0, 0),
            (1, 0),
            (2, 0),
            (3, 0),
            (3, 1),
            (3, 2),
            (3, 3),
            (2, 3),
            (1, 3),
            (0, 3)
        ],
        collect_spiral(walker)
    );
}

fn points(list: &[(i32, i32)]) -> Vec<PointI32> {
    list.iter().map(|&(x, y)| PointI32::new(x, y)).collect()
}

#[test]
fn closing_and_opening_a_path() {
    let closed = Path::from_points(points(&[(0, 0), (1, 0), (1, 1), (0, 0)]));
    let open = Path::from_points(points(&[(0, 0), (1, 0), (1, 1)]));
    assert_eq!(closed.to_open().path, open.path);
    assert_eq!(open.to_closed().path, closed.path);
    assert_eq!(closed.to_open().to_closed().path, closed.path);
    assert_eq!(open.to_closed().to_open().path, open.path);
    assert_eq!(closed.to_closed().path, closed.path);
    assert_eq!(open.to_open().path, open.path);
    let empty = PathI32::new();
    assert!(empty.to_open().is_empty());
    assert!(empty.to_closed().is_empty());
}

#[test]
fn a_path_of_one_point_counts_as_closed() {
    let one = Path::from_points(points(&[(4, 4)]));
    assert_eq!(one.to_closed().path, one.path);
    assert!(one.to_open().is_empty());
    assert!(one.to_open().to_closed().is_empty());
}

#[test]
fn path_basics() {
    let mut path = PathI32::new();
    assert!(path.is_empty());
    path.add(PointI32::new(1, 2));
    path.add(PointI32::new(3, 4));
    assert_eq!(path.len(), 2);
    path.offset(&PointI32::new(10, 20));
    assert_eq!(path.path, points(&[(11, 22), (13, 24)]));
    assert_eq!(path.iter().count(), 2);
    assert_eq!(path.pop(), Some(PointI32::new(13, 24)));
    assert_eq!(path.pop(), Some(PointI32::new(11, 22)));
    assert_eq!(path.pop(), None);
}

#[test]
fn penalty_limiting_keeps_the_corners_of_a_square() {
    let path = Path::from_points(points(&[
        (0, 0),
        (5, 0),
        (10, 0),
        (10, 5),
        (10, 10),
        (5, 10),
        (0, 10),
        (0, 5),
        (0, 0),
    ]));
    let limited = PathSimplify::limit_penalties(&path);
    assert_eq!(limited.path, points(&[(0, 0), (10, 0), (10, 10), (0, 10), (0, 0)]));
}

#[test]
fn a_point_one_off_the_line_is_not_beyond_the_limit() {
    // the middle point lies exactly one away from the line: its penalty is
    // 1, which does not exceed 1
    let path = Path::from_points(points(&[(0, 0), (5, 1), (10, 0), (10, 10)]));
    let limited = PathSimplify::limit_penalties(&path);
    assert_eq!(limited.path, points(&[(0, 0), (10, 0), (10, 10)]));
    let path = Path::from_points(points(&[(0, 0), (5, 2), (10, 0), (20, 0)]));
    let limited = PathSimplify::limit_penalties(&path);
    assert_eq!(limited.path, points(&[(0, 0), (5, 2), (10, 0), (20, 0)]));
}

#[test]
fn staircases_of_one_pixel_are_removed() {
    // a clockwise walk with a one-pixel step: the point on its inward
    // side, (3, 1), goes
    let path = Path::from_points(points(&[
        (0, 0),
        (3, 0),
        (3, 1),
        (6, 1),
        (6, 4),
        (0, 4),
        (0, 0),
    ]));
    let kept = PathSimplify::remove_staircase(&path, true);
    assert_eq!(kept.path, points(&[(0, 0), (3, 0), (6, 1), (6, 4), (0, 4), (0, 0)]));
    let simplified = path.simplify(true);
    for p in simplified.path.iter() {
        assert!(path.path.contains(p));
    }
    assert_eq!(simplified.path.first(), path.path.first());
    assert_eq!(simplified.path.last(), path.path.last());
}

fn walk(image: &BinaryImage, start: PointI32, clockwise: bool) -> Vec<PointI32> {
    let mut walker = PathWalker::new(image, start, clockwise);
    let mut path = Vec::new();
    while let Some(p) = walker.next() {
        path.push(p);
    }
    assert!(!walker.failed);
    path
}

#[test]
fn walk_around_a_rectangle() {
    let image = BinaryImage::from_string("---\n-**\n-**\n-**\n");
    let start = PointI32::new(1, 1);
    assert_eq!(
        walk(&image, start, true),
        points(&[(1, 1), (3, 1), (3, 4), (1, 4), (1, 1)])
    );
    assert_eq!(
        walk(&image, start, false),
        points(&[(1, 1), (1, 4), (3, 4), (3, 1), (1, 1)])
    );
}

#[test]
fn the_walk_back_is_the_walk_forth_reversed() {
    let image = BinaryImage::from_string("-**-\n****\n-***\n--*-\n");
    let start = PointI32::new(1, 0);
    let forth = walk(&image, start, true);
    let mut back = walk(&image, start, false);
    back.reverse();
    assert_eq!(forth, back);
    assert_eq!(forth.first(), Some(&start));
    assert_eq!(forth.last(), Some(&start));
}

#[test]
fn a_walk_without_an_edge_is_given_up() {
    let image = BinaryImage::new_w_h(3, 3);
    let mut walker = PathWalker::new(&image, PointI32::new(1, 1), true);
    assert_eq!(walker.next(), Some(PointI32::new(1, 1)));
    assert_eq!(walker.next(), None);
    assert!(walker.failed);
    assert_eq!(walker.count_neighbours_for(PointI32::new(1, 1)), 0);
}

#[test]
fn outline_of_an_image() {
    let image = BinaryImage::from_string("***\n***\n");
    let path = PathI32::image_to_path(&image, true, PathSimplifyMode::Off).unwrap();
    assert_eq!(path.path, points(&[(0, 0), (3, 0), (3, 2), (0, 2), (0, 0)]));
    let polygon = PathI32::image_to_path(&image, true, PathSimplifyMode::Polygon).unwrap();
    assert_eq!(polygon.path, points(&[(0, 0), (3, 0), (3, 2), (0, 2), (0, 0)]));
    assert_eq!(polygon.to_svg_string(true, &PointI32::default(), None), "M0,0 L3,0 L3,2 L0,2 Z ");
    let blank = BinaryImage::new_w_h(2, 2);
    assert!(PathI32::image_to_path(&blank, true, PathSimplifyMode::Off).unwrap().is_empty());
}

#[test]
fn directions_and_sides() {
    assert_eq!(PathWalker::dir_vec(0), PointI32::new(0, -1));
    assert_eq!(PathWalker::dir_vec(3), PointI32::new(1, 1));
    assert_eq!(PathWalker::dir_vec(6), PointI32::new(-1, 0));
    assert_eq!(PathWalker::ahead_of(PointI32::new(5, 5), 4), PointI32::new(5, 6));
    assert_eq!(PathWalker::side_vecs(2), (PointI32::new(0, 0), PointI32::new(0, -1)));
    assert_eq!(PathWalker::side_vecs(4), (PointI32::new(-1, 0), PointI32::new(0, 0)));
}

#[test]
fn the_extremes_of_a_square() {
    let path = PathI32::from_points(vec![
        PointI32::new(0, 0),
        PointI32::new(2, 0),
        PointI32::new(2, 2),
        PointI32::new(0, 2),
        PointI32::new(0, 0),
    ]);
    // leftmost: the first of (0,0) and (0,2); topmost: the last of (0,0)
    // and (2,0); rightmost: the last of (2,0) and (2,2); bottommost: the
    // last of (2,2) and (0,2)
    assert_eq!(path.extremes(), (0, 1, 2, 3));
    let sections = path.extreme_sections();
    assert_eq!(sections.len(), 4);
    assert_eq!(sections[0].path, vec![PointI32::new(0, 0), PointI32::new(2, 0)]);
    assert_eq!(sections[1].path, vec![PointI32::new(2, 0), PointI32::new(2, 2)]);
    assert_eq!(sections[2].path, vec![PointI32::new(2, 2), PointI32::new(0, 2)]);
    assert_eq!(sections[3].path, vec![PointI32::new(0, 2), PointI32::new(0, 0)]);
}

#[test]
fn the_extremes_of_a_single_point() {
    let path = PathI32::from_points(vec![PointI32::new(5, 7)]);
    assert_eq!(path.extremes(), (0, 0, 0, 0));
    let sections = path.extreme_sections();
    assert_eq!(sections[0].path, vec![PointI32::new(5, 7)]);
    assert_eq!(sections[3].path, vec![PointI32::new(5, 7)]);
}

#[test]
fn a_spline_holds_one_point_and_three_for_each_curve() {
    let mut spline = visioncortex::Spline::new(0u8);
    assert_eq!(spline.len(), 1);
    assert_eq!(spline.num_curves(), 0);
    assert!(spline.is_empty());
    spline.add(1, 2, 3);
    spline.add(4, 5, 6);
    assert_eq!(spline.len(), 7);
    assert_eq!(spline.num_curves(), 2);
    assert!(!spline.is_empty());
    assert_eq!(spline.get_control_points(), vec![[0, 1, 2, 3], [3, 4, 5, 6]]);
}

#[test]
fn cut_points_are_the_flagged_points() {
    assert_eq!(visioncortex::path::cut_points(&[false, true, false, true]), vec![1, 3]);
    // no flag: the first point and the one half way round
    assert_eq!(visioncortex::path::cut_points(&[false, false, false, false]), vec![0, 2]);
    // one flag: that point and the one half way round from it
    assert_eq!(visioncortex::path::cut_points(&[false, false, false, true, false]), vec![3, 0]);
}

#[test]
fn a_circular_subpath_runs_over_the_end() {
    let path = [10, 11, 12, 13, 14];
    assert_eq!(visioncortex::Spline::get_circular_subpath(&path, 1, 3), vec![11, 12, 13]);
    assert_eq!(visioncortex::Spline::get_circular_subpath(&path, 3, 1), vec![13, 14, 10, 11]);
    assert_eq!(visioncortex::Spline::get_circular_subpath(&path, 2, 2), Vec::<i32>::new());
}

#[test]
fn a_path_of_two_points_is_limited_to_its_first() {
    let path = Path::from_points(points(&[(0, 0), (10, 0)]));
    let limited = PathSimplify::limit_penalties(&path);
    assert_eq!(limited.path, points(&[(0, 0)]));
    // a single point is both the first and the last
    let path = Path::from_points(points(&[(3, 4)]));
    let limited = PathSimplify::limit_penalties(&path);
    assert_eq!(limited.path, points(&[(3, 4), (3, 4)]));
    let path = Path::from_points(points(&[]));
    let limited = PathSimplify::limit_penalties(&path);
    assert_eq!(limited.path, points(&[]));
}
