use visioncortex::color_clusters::color_diff;
use visioncortex::color_clusters::color_same;
use visioncortex::color_clusters::Builder;
use visioncortex::color_clusters::Cluster;
use visioncortex::color_clusters::ClusterIndex;
use visioncortex::color_clusters::Clusters;
use visioncortex::color_clusters::ClustersView;
use visioncortex::color_clusters::KeyingAction;
use visioncortex::color_clusters::NeighbourInfo;
use visioncortex::color_clusters::Predicates;
use visioncortex::color_clusters::Runner;
use visioncortex::color_clusters::RunnerConfig;
use visioncortex::BoundingRect;
use visioncortex::Color;
use visioncortex::ColorImage;
use visioncortex::PointI32;

struct Exact {
    deepen: bool,
    hollow: bool,
}

impl Predicates for Exact {
    fn spec_same(&self, a: Color, b: Color) -> bool {
        a == b
    }

    fn same(&self, a: Color, b: Color) -> bool {
        a == b
    }

    fn spec_diff(&self, a: Color, b: Color) -> i32 {
        color_diff(a, b)
    }

    fn diff(&self, a: Color, b: Color) -> i32 {
        color_diff(a, b)
    }

    fn spec_deepen(&self, _view: &ClustersView, _cluster: &Cluster, _n: &[NeighbourInfo]) -> bool {
        self.deepen
    }

    fn deepen(&self, _view: &ClustersView, _cluster: &Cluster, _n: &[NeighbourInfo]) -> bool {
        self.deepen
    }

    fn spec_hollow(&self, _view: &ClustersView, _cluster: &Cluster, _n: &[NeighbourInfo]) -> bool {
        self.hollow
    }

    fn hollow(&self, _view: &ClustersView, _cluster: &Cluster, _n: &[NeighbourInfo]) -> bool {
        self.hollow
    }
}

const RED: Color = Color { r: 255, g: 0, b: 0, a: 255 };
const GREEN: Color = Color { r: 0, g: 255, b: 0, a: 255 };
const BLUE: Color = Color { r: 0, g: 0, b: 255, a: 255 };
const KEY: Color = Color { r: 9, g: 9, b: 9, a: 255 };

fn painted(width: usize, height: usize, background: Color, shapes: &[(BoundingRect, Color)]) -> ColorImage {
    let mut image = ColorImage::new_w_h(width, height);
    for y in 0..height {
        for x in 0..width {
            image.set_pixel(x, y, &background);
        }
    }
    for (rect, color) in shapes {
        for y in rect.top..rect.bottom {
            for x in rect.left..rect.right {
                image.set_pixel(x as usize, y as usize, color);
            }
        }
    }
    image
}

fn check_sound(clusters: &Clusters) {
    let view = clusters.view();
    let width = view.width as i32;
    let n = (view.width * view.height) as usize;
    // label consistency
    for p in 0..n {
        let label = view.get_cluster_at(p as u32);
        if label.0 != 0 {
            assert!(view.get_cluster(label).indices.contains(&(p as u32)));
        }
    }
    // rect tightness, and holes among the pixels
    for cluster in view.clusters.iter() {
        let mut rect = BoundingRect::default();
        for &i in cluster.indices.iter() {
            rect.add_x_y(i as i32 % width, i as i32 / width);
        }
        assert_eq!(rect, cluster.rect);
        if cluster.area() > 0 {
            for h in cluster.holes.iter() {
                assert!(cluster.indices.contains(h));
            }
        }
    }
}

#[test]
fn two_colours_give_two_clusters() {
    let shape = BoundingRect { left: 2, top: 1, right: 5, bottom: 4 };
    let image = painted(8, 6, GREEN, &[(shape, RED)]);
    let clusters = Builder::new()
        .from(image)
        .hierarchical(0)
        .predicates(Exact { deepen: false, hollow: false })
        .run();
    assert_eq!(clusters.output_len(), 2);
    let view = clusters.view();
    let foreground = view.get_cluster(view.clusters_output[0]);
    let background = view.get_cluster(view.clusters_output[1]);
    assert_eq!(foreground.area(), 9);
    assert_eq!(foreground.rect, shape);
    assert_eq!(foreground.color(), RED);
    assert_eq!(background.area(), 48 - 9);
    assert_eq!(background.color(), GREEN);
    assert_eq!(view.get_cluster_at_point(PointI32::new(2, 1)), view.clusters_output[0]);
    assert_eq!(view.get_pixel(2, 1), Some(RED));
    assert_eq!(view.get_pixel(-1, 0), None);
    assert_eq!(view.get_pixel(8, 0), None);
    assert_eq!(view.get_pixel_at_index(0), Some(GREEN));
    assert_eq!(view.get_pixel_at_index(48), None);
    check_sound(&clusters);
    let mut listed = 0;
    let mut it = view.iter();
    while let Some(cluster) = it.next() {
        assert!(cluster.area() > 0);
        listed += 1;
    }
    assert_eq!(listed, 2);
    let picture = view.to_color_image();
    assert_eq!(picture.get_pixel(3, 2), RED);
    assert_eq!(picture.get_pixel(0, 0), GREEN);
    let image = clusters.take_image();
    assert_eq!((image.width, image.height), (8, 6));
}

#[test]
fn a_one_pixel_wide_shape_is_one_cluster() {
    let shape = BoundingRect { left: 3, top: 0, right: 4, bottom: 5 };
    let image = painted(4, 5, GREEN, &[(shape, RED)]);
    let clusters = Builder::new()
        .from(image)
        .diagonal(false)
        .hierarchical(0)
        .predicates(Exact { deepen: false, hollow: false })
        .run();
    assert_eq!(clusters.output_len(), 2);
    check_sound(&clusters);
}

#[test]
fn hierarchy_is_kept() {
    let outer = BoundingRect { left: 4, top: 4, right: 16, bottom: 16 };
    let inner = BoundingRect { left: 7, top: 7, right: 13, bottom: 13 };
    let image = painted(20, 20, GREEN, &[(outer, RED), (inner, BLUE)]);
    let clusters = Runner::new(RunnerConfig::default(), image).run();
    check_sound(&clusters);
    assert_eq!(clusters.output_len(), 3);
    let view = clusters.view();
    let inner_cluster = view.get_cluster(view.clusters_output[0]);
    let outer_cluster = view.get_cluster(view.clusters_output[1]);
    let background = view.get_cluster(view.clusters_output[2]);
    assert_eq!(inner_cluster.area(), 36);
    assert_eq!(inner_cluster.rect, inner);
    assert_eq!(outer_cluster.area(), 144);
    assert_eq!(outer_cluster.rect, outer);
    assert_eq!(outer_cluster.num_holes, 1);
    assert_eq!(outer_cluster.depth, 1);
    assert_eq!(outer_cluster.holes, inner_cluster.indices);
    assert_eq!(background.area(), 400);
    assert_eq!(background.num_holes, 1);
    assert_eq!(background.depth, 1);
    assert_eq!(inner_cluster.residue_color(), BLUE);
    assert_eq!(outer_cluster.residue_color(), RED);
    assert_eq!(background.residue_color(), GREEN);
    // a deepened cluster is its own, a final one too
    assert_eq!(inner_cluster.merged_into, view.clusters_output[0]);
    assert_eq!(background.merged_into, view.clusters_output[2]);
    // the pixels carry the label of the cluster that took them last
    assert_eq!(view.get_cluster_at_point(PointI32::new(8, 8)), view.clusters_output[2]);
    let ring = outer_cluster.to_image(&view);
    assert_eq!(ring.area(), 144 - 36);
    assert_eq!(outer_cluster.perimeter(&view), 44 + 24);
    assert_eq!(outer_cluster.to_image_with_hole(view.width, false).area(), 144);
    assert_eq!(outer_cluster.to_shape(&view).image.area(), 144 - 36);
    let picture = view.to_color_image();
    assert_eq!(picture.get_pixel(0, 0), GREEN);
    assert_eq!(picture.get_pixel(5, 5), RED);
    assert_eq!(picture.get_pixel(9, 9), BLUE);
}

#[test]
fn merging_without_deepening_leaves_one_cluster() {
    let shape = BoundingRect { left: 1, top: 1, right: 3, bottom: 3 };
    let image = painted(5, 5, GREEN, &[(shape, RED)]);
    let clusters = Builder::new()
        .from(image)
        .batch_size(7)
        .predicates(Exact { deepen: false, hollow: true })
        .run();
    check_sound(&clusters);
    assert_eq!(clusters.output_len(), 1);
    let view = clusters.view();
    let all = view.get_cluster(view.clusters_output[0]);
    assert_eq!(all.area(), 25);
    assert_eq!(all.num_holes, 0);
    assert_eq!(all.depth, 0);
    assert!(all.holes.is_empty());
    // the cluster that was merged away points to the one that took it
    let gone: Vec<&Cluster> = view.clusters.iter().skip(1).filter(|c| c.area() == 0).collect();
    assert_eq!(gone.len(), 1);
    assert_eq!(gone[0].merged_into, view.clusters_output[0]);
    assert_eq!(gone[0].rect, BoundingRect::default());
}

#[test]
fn clusters_above_the_threshold_are_not_merged() {
    let shape = BoundingRect { left: 0, top: 0, right: 2, bottom: 3 };
    let image = painted(4, 3, GREEN, &[(shape, RED)]);
    let clusters = Builder::new()
        .from(image)
        .hierarchical(5)
        .predicates(Exact { deepen: true, hollow: true })
        .run();
    check_sound(&clusters);
    assert_eq!(clusters.output_len(), 2);
    let view = clusters.view();
    assert_eq!(view.get_cluster(view.clusters_output[0]).area(), 6);
    assert_eq!(view.get_cluster(view.clusters_output[1]).area(), 6);
}

#[test]
fn keyed_pixels_are_kept_in_cluster_zero_or_discarded() {
    let bar = BoundingRect { left: 2, top: 0, right: 3, bottom: 4 };
    let image = painted(5, 4, GREEN, &[(bar, KEY)]);
    let kept = Builder::new()
        .from(image)
        .key(KEY)
        .keying_action(KeyingAction::Keep)
        .hierarchical(0)
        .predicates(Exact { deepen: false, hollow: false })
        .run();
    check_sound(&kept);
    let view = kept.view();
    assert_eq!(view.get_cluster(ClusterIndex(0)).area(), 4);
    assert_eq!(view.get_cluster_at_point(PointI32::new(2, 1)), ClusterIndex(0));
    assert_eq!(kept.output_len(), 2);
    for &o in view.clusters_output.iter() {
        assert_ne!(o, ClusterIndex(0));
        assert_eq!(view.get_cluster(o).area(), 8);
    }

    let image = painted(5, 4, GREEN, &[(bar, KEY)]);
    let discarded = Builder::new()
        .from(image)
        .key(KEY)
        .keying_action(KeyingAction::Discard)
        .predicates(Exact { deepen: false, hollow: false })
        .run();
    check_sound(&discarded);
    let view = discarded.view();
    assert_eq!(view.get_cluster(ClusterIndex(0)).area(), 0);
    assert_eq!(view.get_cluster_at_point(PointI32::new(2, 1)), ClusterIndex(0));
    // each side is cut off by discarded pixels and is an output of its own
    assert_eq!(discarded.output_len(), 2);
}

#[test]
fn ticking_reports_progress_and_only_grows_clusters() {
    let outer = BoundingRect { left: 2, top: 2, right: 8, bottom: 8 };
    let image = painted(10, 10, GREEN, &[(outer, RED)]);
    let mut builder = Builder::new()
        .from(image)
        .batch_size(30)
        .predicates(Exact { deepen: true, hollow: true })
        .start();
    assert_eq!(builder.progress(), 0);
    assert!(!builder.tick());
    assert_eq!(builder.progress(), 15);
    assert!(!builder.tick());
    assert!(!builder.tick());
    assert_eq!(builder.progress(), 45);
    assert!(!builder.tick());
    // the scan is over: two areas are in the histogram
    assert_eq!(builder.progress(), 50);
    let areas: Vec<usize> = builder.view().clusters.iter().map(|c| c.area()).collect();
    assert!(!builder.tick());
    assert_eq!(builder.progress(), 50 + 50 / 3);
    let after: Vec<usize> = builder.view().clusters.iter().map(|c| c.area()).collect();
    for (c, (before, now)) in areas.iter().zip(after.iter()).enumerate() {
        assert!(now >= before || builder.view().clusters[c].merged_into != ClusterIndex(c as u32));
    }
    let mut ticks = 0;
    while !builder.tick() {
        ticks += 1;
        assert!(ticks < 10);
    }
    assert_eq!(builder.progress(), 100);
    assert!(builder.tick());
    let clusters = builder.result();
    check_sound(&clusters);
    assert_eq!(clusters.output_len(), 2);
    assert_eq!(builder.progress(), 0);
}

#[test]
fn colours_compared_by_their_high_bits() {
    assert!(color_same(Color::new(0x10, 0x20, 0x30), Color::new(0x1f, 0x2f, 0x3f), 4, 0));
    assert!(color_same(Color::new(0x10, 0x20, 0x30), Color::new(0x20, 0x10, 0x30), 4, 1));
    assert!(!color_same(Color::new(0x10, 0x20, 0x30), Color::new(0x30, 0x20, 0x30), 4, 1));
    assert!(!color_same(Color::new(1, 0, 0), Color::new(0, 0, 0), 0, 0));
    assert_eq!(color_diff(Color::new(10, 20, 30), Color::new(13, 18, 30)), 5);
    assert_eq!(color_diff(RED, GREEN), 510);
}

#[test]
fn neighbours_are_listed_once_in_order() {
    let a = BoundingRect { left: 0, top: 0, right: 2, bottom: 4 };
    let b = BoundingRect { left: 2, top: 0, right: 4, bottom: 2 };
    let image = painted(4, 4, GREEN, &[(a, RED), (b, BLUE)]);
    let mut builder = Builder::new()
        .from(image)
        .batch_size(100)
        .predicates(Exact { deepen: false, hollow: false })
        .start();
    builder.tick();
    let view = builder.view();
    let red = view.get_cluster_at_point(PointI32::new(0, 0));
    let blue = view.get_cluster_at_point(PointI32::new(3, 0));
    let green = view.get_cluster_at_point(PointI32::new(3, 3));
    assert_eq!(view.get_cluster(red).neighbours(&view), vec![blue, green]);
    assert_eq!(view.get_cluster(blue).neighbours(&view), vec![red, green]);
    assert_eq!(view.get_cluster(green).neighbours(&view), vec![red, blue]);
}

#[test]
fn a_patch_of_the_least_good_area_is_kept() {
    // four by four: exactly the least area that counts as good
    let inner = BoundingRect { left: 4, top: 4, right: 8, bottom: 8 };
    let image = painted(12, 12, GREEN, &[(inner, RED)]);
    let clusters = Runner::new(RunnerConfig::default(), image).run();
    check_sound(&clusters);
    assert_eq!(clusters.output_len(), 2);
    let view = clusters.view();
    let patch = view.get_cluster(view.clusters_output[0]);
    let background = view.get_cluster(view.clusters_output[1]);
    assert_eq!(patch.area(), 16);
    assert_eq!(patch.rect, inner);
    assert_eq!(background.area(), 144);
    assert_eq!(background.depth, 1);
    assert_eq!(background.num_holes, 1);
    assert_eq!(background.holes, patch.indices);
}

#[test]
fn a_patch_below_the_least_good_area_is_merged_away() {
    // five by three: one pixel short of the least area that counts as good
    let inner = BoundingRect { left: 4, top: 4, right: 9, bottom: 7 };
    let image = painted(12, 12, GREEN, &[(inner, RED)]);
    let clusters = Runner::new(RunnerConfig::default(), image).run();
    check_sound(&clusters);
    assert_eq!(clusters.output_len(), 1);
    let view = clusters.view();
    let background = view.get_cluster(view.clusters_output[0]);
    assert_eq!(background.area(), 144);
    assert_eq!(background.depth, 0);
    assert_eq!(background.num_holes, 0);
}
