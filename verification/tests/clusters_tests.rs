use visioncortex::clusters::Cluster;
use visioncortex::BinaryImage;
use visioncortex::BoundingRect;
use visioncortex::PathSimplifyMode;
use visioncortex::PointI32;

#[test]
fn clusters_3x3() {
    let size = 3;
    let mut image = BinaryImage::new_w_h(size, size);
    image.set_pixel(0, 0, true);
    image.set_pixel(1, 1, true);
    image.set_pixel(2, 2, true);
    let clusters = image.to_clusters(false);
    assert_eq!(clusters.len(), 3);
    assert_eq!(clusters.clusters[0].size(), 1);
    assert_eq!(clusters.clusters[0].points[0], PointI32 { x: 0, y: 0 });
    assert_eq!(clusters.clusters[1].size(), 1);
    assert_eq!(clusters.clusters[1].points[0], PointI32 { x: 1, y: 1 });
    assert_eq!(clusters.clusters[2].size(), 1);
    assert_eq!(clusters.clusters[2].points[0], PointI32 { x: 2, y: 2 });
    let mut rect = BoundingRect::default();
    rect.add_x_y(2, 2);
    assert_eq!(clusters.clusters[2].rect, rect);
    let bin = clusters.clusters[0].to_binary_image();
    assert_eq!(bin.width, 1);
    assert_eq!(bin.height, 1);
    assert_eq!(bin.get_pixel(0, 0), true);
}

#[test]
fn clusters_3x3_diagonal() {
    let size = 3;
    let mut image = BinaryImage::new_w_h(size, size);
    image.set_pixel(0, 0, true);
    image.set_pixel(1, 1, true);
    image.set_pixel(2, 2, true);
    let clusters = image.to_clusters(true);
    assert_eq!(clusters.len(), 1);
    assert_eq!(clusters.clusters[0].size(), 3);
    assert_eq!(clusters.clusters[0].points[0], PointI32 { x: 0, y: 0 });
    assert_eq!(clusters.clusters[0].points[1], PointI32 { x: 1, y: 1 });
    assert_eq!(clusters.clusters[0].points[2], PointI32 { x: 2, y: 2 });
}

#[test]
fn clusters_4x4() {
    let size = 4;
    let mut image = BinaryImage::new_w_h(size, size);
    image.set_pixel(1, 1, true);
    image.set_pixel(1, 2, true);
    image.set_pixel(2, 1, true);
    image.set_pixel(2, 2, true);
    let clusters = image.to_clusters(false);
    assert_eq!(clusters.len(), 1);
    assert_eq!(clusters.clusters[0].size(), 4);
    assert_eq!(clusters.clusters[0].rect.left, 1);
    assert_eq!(clusters.clusters[0].rect.top, 1);
    assert_eq!(clusters.clusters[0].rect.right, 3);
    assert_eq!(clusters.clusters[0].rect.bottom, 3);
    assert_eq!(clusters.clusters[0].rect.width(), 2);
    assert_eq!(clusters.clusters[0].rect.height(), 2);
    let bin = clusters.clusters[0].to_binary_image();
    assert_eq!(bin.width, 2);
    assert_eq!(bin.height, 2);
    assert_eq!(bin.get_pixel(0, 0), true);
    assert_eq!(bin.get_pixel(0, 1), true);
    assert_eq!(bin.get_pixel(1, 0), true);
    assert_eq!(bin.get_pixel(1, 1), true);
}

#[test]
fn break_cluster_noop() {
    let image_string = "***\n".to_owned() + "***\n" + "-*-\n";
    let image = BinaryImage::from_string(&image_string);
    let clusters = Cluster::break_cluster(image.to_clusters(false).clusters.remove(0));
    assert_eq!(clusters.len(), 1);
    assert_eq!(clusters.get_cluster(0).to_binary_image().to_string(), image_string);
}

#[test]
fn break_cluster() {
    let image = BinaryImage::from_string(&("***---\n".to_owned() + "******\n" + "---***\n"));
    let clusters = Cluster::break_cluster(image.to_clusters(false).clusters.remove(0));
    assert_eq!(clusters.len(), 2);
    assert_eq!(
        clusters.get_cluster(0).to_binary_image().to_string(),
        "***\n".to_owned() + "***\n"
    );
    assert_eq!(clusters.get_cluster(0).rect.left, 0);
    assert_eq!(clusters.get_cluster(0).rect.top, 0);
    assert_eq!(
        clusters.get_cluster(1).to_binary_image().to_string(),
        "-**\n".to_owned() + "***\n"
    );
    assert_eq!(clusters.get_cluster(1).rect.left, 3);
    assert_eq!(clusters.get_cluster(1).rect.top, 1);
}

#[test]
fn break_cluster_alt() {
    let image = BinaryImage::from_string(&("---***\n".to_owned() + "******\n" + "***---\n"));
    let clusters = Cluster::break_cluster(image.to_clusters(false).clusters.remove(0));
    for c in clusters.iter() {
        println!("{}", c.to_binary_image().to_string());
    }
    assert_eq!(clusters.len(), 2);
    assert_eq!(
        clusters.get_cluster(0).to_binary_image().to_string(),
        "***\n".to_owned() + "-**\n"
    );
    assert_eq!(clusters.get_cluster(0).rect.left, 3);
    assert_eq!(clusters.get_cluster(0).rect.top, 0);
    assert_eq!(
        clusters.get_cluster(1).to_binary_image().to_string(),
        "***\n".to_owned() + "***\n"
    );
    assert_eq!(clusters.get_cluster(1).rect.left, 0);
    assert_eq!(clusters.get_cluster(1).rect.top, 1);
}

#[test]
fn break_cluster_cant_break() {
    let image_string = "*--\n".to_owned() + "**-\n" + "-**\n";
    let image = BinaryImage::from_string(&image_string);
    let clusters = Cluster::break_cluster(image.to_clusters(false).clusters.remove(0));
    assert_eq!(clusters.len(), 1);
    assert_eq!(clusters.get_cluster(0).to_binary_image().to_string(), image_string);
}

#[test]
fn break_cluster_cant_break_2() {
    let image_string = "*---\n".to_owned() + "****\n" + "--**\n";
    let image = BinaryImage::from_string(&image_string);
    let clusters = Cluster::break_cluster(image.to_clusters(false).clusters.remove(0));
    assert_eq!(clusters.len(), 1);
    assert_eq!(clusters.get_cluster(0).to_binary_image().to_string(), image_string);
}

#[test]
fn break_cluster_big() {
    let image =
        BinaryImage::from_string(&("***---***\n".to_owned() + "*********\n" + "---***---\n"));
    let clusters = Cluster::break_cluster(image.to_clusters(false).clusters.remove(0));
    assert_eq!(clusters.len(), 3);

    assert_eq!(
        clusters.get_cluster(0).to_binary_image().to_string(),
        "***\n".to_owned() + "***\n"
    );
    assert_eq!(clusters.get_cluster(0).rect.left, 0);
    assert_eq!(clusters.get_cluster(0).rect.top, 0);

    assert_eq!(
        clusters.get_cluster(1).to_binary_image().to_string(),
        "***\n".to_owned() + "-**\n"
    );
    assert_eq!(clusters.get_cluster(1).rect.left, 6);
    assert_eq!(clusters.get_cluster(1).rect.top, 0);

    assert_eq!(
        clusters.get_cluster(2).to_binary_image().to_string(),
        "-**\n".to_owned() + "***\n"
    );
    assert_eq!(clusters.get_cluster(2).rect.left, 3);
    assert_eq!(clusters.get_cluster(2).rect.top, 1);
}

#[test]
fn every_set_pixel_is_in_one_cluster() {
    let image = BinaryImage::from_string("**-*\n-*-*\n---*\n*---\n");
    let clusters = image.to_clusters(false);
    assert_eq!(clusters.len(), 3);
    assert!(!clusters.is_empty());
    let mut seen = Vec::new();
    for cluster in clusters.iter() {
        assert!(cluster.size() > 0);
        let mut rect = BoundingRect::default();
        for p in cluster.iter() {
            assert!(image.get_pixel_at(*p));
            assert!(!seen.contains(p));
            seen.push(*p);
            rect.add_x_y(p.x, p.y);
        }
        assert_eq!(rect, cluster.rect);
    }
    assert_eq!(seen.len() as u64, image.area());
    assert_eq!(clusters.rect, image.bounding_rect());
}

#[test]
fn clusters_joined_late_take_the_label_of_the_larger() {
    // the two arms meet in the last row only
    let image = BinaryImage::from_string("*-*\n*-*\n***\n");
    let clusters = image.to_clusters(false);
    assert_eq!(clusters.len(), 1);
    assert_eq!(clusters.clusters[0].size(), 7);
    assert_eq!(clusters.clusters[0].rect, BoundingRect { left: 0, top: 0, right: 3, bottom: 3 });
}

#[test]
fn cluster_offset_and_boundary() {
    let image = BinaryImage::from_string("***\n***\n***\n");
    let mut cluster = image.to_clusters(false).clusters.remove(0);
    assert_eq!(cluster.boundary().len(), 8);
    cluster.offset(PointI32::new(10, 20));
    assert_eq!(cluster.rect, BoundingRect { left: 10, top: 20, right: 13, bottom: 23 });
    assert_eq!(cluster.points[0], PointI32::new(10, 20));
    assert_eq!(cluster.boundary().len(), 8);
}

#[test]
fn outlines_of_a_shape_with_a_hole() {
    let image = BinaryImage::from_string("****\n*--*\n*--*\n****\n");
    let paths = Cluster::image_to_paths(&image, PathSimplifyMode::Off).unwrap();
    assert_eq!(paths.len(), 2);
    assert_eq!(
        paths[0].path,
        vec![
            PointI32::new(0, 0),
            PointI32::new(4, 0),
            PointI32::new(4, 4),
            PointI32::new(0, 4),
            PointI32::new(0, 0)
        ]
    );
    assert_eq!(
        paths[1].path,
        vec![
            PointI32::new(1, 1),
            PointI32::new(1, 3),
            PointI32::new(3, 3),
            PointI32::new(3, 1),
            PointI32::new(1, 1)
        ]
    );
}

#[test]
fn the_pieces_of_a_ring_are_the_disc_and_the_hole() {
    let image = BinaryImage::from_string(
        &("*****\n".to_owned() + "*---*\n" + "*-*-*\n" + "*---*\n" + "*****\n"),
    );
    let pieces = Cluster::image_to_boundaries(&image);
    assert_eq!(pieces.len(), 2);
    assert_eq!(pieces[0].1, PointI32::new(0, 0));
    // the ring with its hole filled; the pixel inside the hole was set already
    assert_eq!(
        pieces[0].0.to_string(),
        "*****\n".to_owned() + "*****\n" + "*****\n" + "*****\n" + "*****\n"
    );
    assert_eq!(pieces[1].1, PointI32::new(1, 1));
    assert_eq!(pieces[1].0.to_string(), "***\n".to_owned() + "*-*\n" + "***\n");
}

#[test]
fn unset_pixels_at_the_edge_are_no_hole() {
    let image = BinaryImage::from_string(&("-**\n".to_owned() + "***\n" + "***\n"));
    let pieces = Cluster::image_to_boundaries(&image);
    assert_eq!(pieces.len(), 1);
    assert_eq!(pieces[0].0.to_string(), image.to_string());
}

#[test]
fn the_paths_of_a_ring_are_its_outline_and_its_hole() {
    let image = BinaryImage::from_string(
        &("***\n".to_owned() + "*-*\n" + "***\n"),
    );
    let paths = Cluster::image_to_paths(&image, visioncortex::PathSimplifyMode::Off).unwrap();
    assert_eq!(paths.len(), 2);
    // the outline of the filled square
    assert_eq!(
        paths[0].path,
        vec![
            PointI32::new(0, 0),
            PointI32::new(3, 0),
            PointI32::new(3, 3),
            PointI32::new(0, 3),
            PointI32::new(0, 0)
        ]
    );
    // the hole lies at (1, 1)
    assert_eq!(paths[1].path.len(), 5);
    assert_eq!(paths[1].path[0], PointI32::new(1, 1));
    assert_eq!(paths[1].path[4], PointI32::new(1, 1));
    assert_eq!(paths[1].path[2], PointI32::new(2, 2));
    assert!(paths[1].path.contains(&PointI32::new(1, 2)));
    assert!(paths[1].path.contains(&PointI32::new(2, 1)));
    let polygons = Cluster::image_to_paths(&image, visioncortex::PathSimplifyMode::Polygon).unwrap();
    assert_eq!(
        polygons[0].path,
        vec![
            PointI32::new(0, 0),
            PointI32::new(3, 0),
            PointI32::new(3, 3),
            PointI32::new(0, 3),
            PointI32::new(0, 0)
        ]
    );
}

#[test]
fn pixels_that_touch_at_a_corner_join_only_with_diagonals() {
    // the pixel above to the right joins through the pixel between them
    let image = BinaryImage::from_string(&("-*\n".to_owned() + "*-\n"));
    assert_eq!(image.to_clusters(false).len(), 2);
    assert_eq!(image.to_clusters(true).len(), 1);
    let image = BinaryImage::from_string(&("-*-\n".to_owned() + "*-*\n"));
    assert_eq!(image.to_clusters(false).len(), 3);
    assert_eq!(image.to_clusters(true).len(), 1);
}

#[test]
fn points_come_in_the_order_of_scan_and_merge() {
    // * . *
    // * * *
    let mut image = BinaryImage::new_w_h(3, 2);
    image.set_pixel(0, 0, true);
    image.set_pixel(2, 0, true);
    image.set_pixel(0, 1, true);
    image.set_pixel(1, 1, true);
    image.set_pixel(2, 1, true);
    let clusters = image.to_clusters(false);
    assert_eq!(clusters.len(), 1);
    // at (2, 1) the one point above goes behind the three to the left
    assert_eq!(
        clusters.clusters[0].points,
        vec![
            PointI32 { x: 0, y: 0 },
            PointI32 { x: 0, y: 1 },
            PointI32 { x: 1, y: 1 },
            PointI32 { x: 2, y: 0 },
            PointI32 { x: 2, y: 1 },
        ]
    );
}

#[test]
fn clusters_come_in_the_order_of_their_labels() {
    // * . * .
    // . . * *
    // * . . .
    let mut image = BinaryImage::new_w_h(4, 3);
    image.set_pixel(0, 0, true);
    image.set_pixel(2, 0, true);
    image.set_pixel(2, 1, true);
    image.set_pixel(3, 1, true);
    image.set_pixel(0, 2, true);
    let clusters = image.to_clusters(false);
    assert_eq!(clusters.len(), 3);
    assert_eq!(clusters.clusters[0].points, vec![PointI32 { x: 0, y: 0 }]);
    assert_eq!(
        clusters.clusters[1].points,
        vec![PointI32 { x: 2, y: 0 }, PointI32 { x: 2, y: 1 }, PointI32 { x: 3, y: 1 }]
    );
    assert_eq!(clusters.clusters[2].points, vec![PointI32 { x: 0, y: 2 }]);
}

#[test]
fn the_pieces_of_a_broken_cluster_have_five_pixels_or_more() {
    let image = BinaryImage::from_string(&("***---\n".to_owned() + "******\n" + "---***\n"));
    let pieces = Cluster::break_cluster(image.to_clusters(false).clusters.remove(0));
    assert_eq!(pieces.len(), 2);
    // the pixel of the bridge that was cleared belongs to neither
    assert_eq!(pieces.get_cluster(0).size(), 6);
    assert_eq!(pieces.get_cluster(1).size(), 5);
    // a split that would leave four pixels on one side is not made
    let small = BinaryImage::from_string(&("**---\n".to_owned() + "*****\n" + "---**\n"));
    let whole = small.to_clusters(false).clusters.remove(0);
    let size = whole.size();
    let pieces = Cluster::break_cluster(whole);
    assert_eq!(pieces.len(), 1);
    assert_eq!(pieces.get_cluster(0).size(), size);
}
