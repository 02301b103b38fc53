use visioncortex::{BinaryImage, Shape};

#[test]
fn geometry_shape_circle_3() {
    let image = Shape::circle(3, 3).image;
    assert_eq!(image.to_string(), "***\n".to_owned() + "***\n" + "***\n");
}

#[test]
fn geometry_shape_circle_5() {
    let image = Shape::circle(5, 5).image;
    assert_eq!(
        image.to_string(),
        "-***-\n".to_owned() + "*****\n" + "*****\n" + "*****\n" + "-***-\n"
    );
}

#[test]
fn geometry_shape_circle_7() {
    let image = Shape::circle(7, 7).image;
    assert_eq!(
        image.to_string(),
        "--***--\n".to_owned()
            + "-*****-\n"
            + "*******\n"
            + "*******\n"
            + "*******\n"
            + "-*****-\n"
            + "--***--\n"
    );
}

#[test]
fn basic_shape_shape_circle_3() {
    let image = Shape::circle(3, 3).image;
    assert_eq!(image.to_string(), "***\n".to_owned() + "***\n" + "***\n");
}

#[test]
fn basic_shape_shape_circle_5() {
    let image = Shape::circle(5, 5).image;
    assert_eq!(
        image.to_string(),
        "-***-\n".to_owned() + "*****\n" + "*****\n" + "*****\n" + "-***-\n"
    );
}

#[test]
fn basic_shape_shape_circle_7() {
    let image = Shape::circle(7, 7).image;
    assert_eq!(
        image.to_string(),
        "--***--\n".to_owned()
            + "-*****-\n"
            + "*******\n"
            + "*******\n"
            + "*******\n"
            + "-*****-\n"
            + "--***--\n"
    );
}

#[test]
fn a_circle_in_an_even_frame_stays_inside() {
    let image = Shape::circle(4, 6).image;
    assert_eq!(image.width, 4);
    assert_eq!(image.height, 6);
    assert_eq!(
        image.to_string(),
        "----\n".to_owned() + "----\n" + "-***\n" + "-***\n" + "-***\n" + "----\n"
    );
}

#[test]
fn an_empty_frame_holds_no_circle() {
    let image = Shape::circle(0, 0).image;
    assert_eq!(image.width, 0);
    assert_eq!(image.area(), 0);
}

#[test]
fn a_blank_difference_scores_nothing() {
    let diff = BinaryImage::new_w_h(4, 4);
    assert!(Shape::clustered_diff(&diff, 0));
}

#[test]
fn a_single_pixel_scores_two() {
    let mut diff = BinaryImage::new_w_h(4, 4);
    diff.set_pixel(1, 1, true);
    assert!(!Shape::clustered_diff(&diff, 1));
    assert!(Shape::clustered_diff(&diff, 2));
}

#[test]
fn a_full_square_scores_by_area_and_boundary() {
    let mut diff = BinaryImage::new_w_h(3, 3);
    for y in 0..3 {
        for x in 0..3 {
            diff.set_pixel(x, y, true);
        }
    }
    // one cluster of nine pixels with eight on the boundary
    assert!(!Shape::clustered_diff(&diff, 11));
    assert!(Shape::clustered_diff(&diff, 12));
}

#[test]
fn average_shape() {
    assert_eq!(
        visioncortex::AverageShape::average_shape_between(
            BinaryImage::from_string(&("***\n".to_owned() + "***\n" + "***\n")),
            BinaryImage::from_string(&("---\n".to_owned() + "-*-\n" + "---\n")),
        )
        .unwrap()
        .to_string(),
        "-*-\n".to_owned() + "***\n" + "-*-\n"
    );
}

#[test]
fn shapes_with_different_cluster_counts_have_no_average() {
    let a = BinaryImage::from_string(&("*-*\n".to_owned() + "---\n"));
    let b = BinaryImage::from_string(&("*-*\n".to_owned() + "***\n"));
    // what both share falls into two clusters, what either has is one
    assert!(visioncortex::AverageShape::average_shape_between(a, b).is_none());
}

#[test]
fn a_tick_grows_one_ring() {
    let mut shape = visioncortex::AverageShape::new();
    let from = BinaryImage::from_string(&("-----\n".to_owned() + "-----\n" + "--*--\n" + "-----\n" + "-----\n"));
    let to = BinaryImage::from_string(&("*****\n".to_owned() + "*****\n" + "*****\n" + "*****\n" + "*****\n"));
    assert!(shape.init(from, to));
    assert!(!shape.tick());
    assert!(!shape.tick());
    let half = shape.result();
    assert_eq!(
        half.to_string(),
        "-----\n".to_owned() + "--*--\n" + "-***-\n" + "--*--\n" + "-----\n"
    );
}

#[test]
fn stroking_widens_a_pixel_into_a_disc() {
    let mut image = BinaryImage::new_w_h(1, 1);
    image.set_pixel(0, 0, true);
    let wide = image.stroke(4);
    assert_eq!(wide.width, 5);
    assert_eq!(wide.height, 5);
    assert_eq!(
        wide.to_string(),
        "-----\n".to_owned() + "-***-\n" + "-***-\n" + "-***-\n" + "-----\n"
    );
}

#[test]
fn the_skeleton_of_a_bar_runs_along_it() {
    let image = BinaryImage::from_string(&("*****\n".to_owned()));
    let skeleton = image.to_skeleton();
    // every pixel is the middle of its column; the run down to the right
    // from the top right corner is never measured
    assert_eq!(skeleton.image.to_string(), "****-\n");
    assert_eq!(skeleton.widths, vec![1, 1, 1, 1]);
}

#[test]
fn a_blank_image_has_a_blank_skeleton() {
    let image = BinaryImage::new_w_h(3, 2);
    let skeleton = image.to_skeleton();
    assert_eq!(skeleton.image.to_string(), "---\n---\n");
    assert!(skeleton.widths.is_empty());
}

#[test]
fn the_skeleton_of_a_block_is_its_middle() {
    let image = BinaryImage::from_string(
        &("*******\n".to_owned() + "*******\n" + "*******\n"),
    );
    let skeleton = image.to_skeleton();
    for y in 0..3 {
        for x in 0..7 {
            if skeleton.image.get_pixel(x, y) {
                assert!(image.get_pixel(x, y));
            }
        }
    }
    assert!(skeleton.widths.iter().all(|w| *w >= 1));
}
