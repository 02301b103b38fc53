//! A ready-made clustering with predicates on colour differences.

use vstd::prelude::*;

use crate::color::Color;
use crate::color_clusters::builder::ran;
use crate::color_clusters::builder::Builder;
use crate::color_clusters::builder::IncrementalBuilder;
use crate::color_clusters::builder::NeighbourInfo;
use crate::color_clusters::builder::Predicates;
use crate::color_clusters::builder::HIERARCHICAL_MAX;
use crate::color_clusters::cluster::Cluster;
use crate::color_clusters::container::all_emitted;
use crate::color_clusters::container::ascending_from;
use crate::color_clusters::container::Clusters;
use crate::color_clusters::container::ClustersView;
use crate::image::ColorImage;

verus! {

/// A clustering with the usual predicates, to be configured by numbers.
pub struct Runner {
    pub config: RunnerConfig,
    pub image: ColorImage,
}

pub struct RunnerConfig {
    pub diagonal: bool,
    pub hierarchical: u32,
    pub batch_size: i32,
    pub good_min_area: usize,
    pub good_max_area: usize,
    pub is_same_color_a: i32,
    pub is_same_color_b: i32,
    pub deepen_diff: i32,
    pub hollow_neighbours: usize,
}

/// The predicates of a `Runner`.
pub struct RunnerPredicates {
    good_min_area: usize,
    good_max_area: usize,
    shift: i32,
    thres: i32,
    deepen_diff: i32,
    hollow_neighbours: usize,
}

impl Default for RunnerConfig {
    fn default() -> (c: Self)
        ensures
            c.diagonal,
            c.hierarchical == HIERARCHICAL_MAX,
            c.batch_size == 10000,
            c.good_min_area == 16,
            c.good_max_area == 65536,
            c.is_same_color_a == 4,
            c.is_same_color_b == 1,
            c.deepen_diff == 64,
            c.hollow_neighbours == 1,
    {
        Self {
            diagonal: true,
            hierarchical: HIERARCHICAL_MAX,
            batch_size: 10000,
            good_min_area: 16,
            good_max_area: 256 * 256,
            is_same_color_a: 4,
            is_same_color_b: 1,
            deepen_diff: 64,
            hollow_neighbours: 1,
        }
    }
}

impl Default for Runner {
    fn default() -> (r: Self)
        ensures
            r.image.width == 0,
            r.image.height == 0,
            r.config.is_same_color_a == 4,
    {
        Self { config: RunnerConfig::default(), image: ColorImage::new() }
    }
}

/// The magnitude of a difference of two channels.
pub open spec fn spec_abs_diff(a: int, b: int) -> int {
    if a >= b {
        a - b
    } else {
        b - a
    }
}

/// The sum of the differences of red, green and blue.
pub open spec fn spec_color_diff(a: Color, b: Color) -> int {
    spec_abs_diff(a.r as int, b.r as int) + spec_abs_diff(a.g as int, b.g as int) + spec_abs_diff(
        a.b as int,
        b.b as int,
    )
}

/// Red, green and blue, each without its lowest `shift` bits, differ by
/// `thres` at most.
pub open spec fn spec_color_same(a: Color, b: Color, shift: i32, thres: i32) -> bool {
    &&& spec_abs_diff((a.r >> (shift as u8)) as int, (b.r >> (shift as u8)) as int) <= thres
    &&& spec_abs_diff((a.g >> (shift as u8)) as int, (b.g >> (shift as u8)) as int) <= thres
    &&& spec_abs_diff((a.b >> (shift as u8)) as int, (b.b >> (shift as u8)) as int) <= thres
}

fn abs_diff(a: u8, b: u8) -> (d: i32)
    ensures
        d == spec_abs_diff(a as int, b as int),
{
    if a >= b {
        (a - b) as i32
    } else {
        (b - a) as i32
    }
}

/// How much two colours differ.
pub fn color_diff(a: Color, b: Color) -> (d: i32)
    ensures
        d == spec_color_diff(a, b),
{
    abs_diff(a.r, b.r) + abs_diff(a.g, b.g) + abs_diff(a.b, b.b)
}

/// Are two colours the same but for their lowest bits and a threshold?
pub fn color_same(a: Color, b: Color, shift: i32, thres: i32) -> (s: bool)
    requires
        0 <= shift < 8,
    ensures
        s == spec_color_same(a, b, shift, thres),
{
    let k = shift as u8;
    abs_diff(a.r >> k, b.r >> k) <= thres && abs_diff(a.g >> k, b.g >> k) <= thres && abs_diff(
        a.b >> k,
        b.b >> k,
    ) <= thres
}

/// The area of the cluster is at least the lower limit and less than the
/// upper one, and unless the lower limit is 0 its image has fewer
/// boundary pixels than pixels.
pub open spec fn spec_patch_good(patch: &Cluster, width: int, good_min_area: usize, good_max_area: usize) -> bool {
    good_min_area <= patch.indices@.len() < good_max_area && (good_min_area == 0
        || patch.spec_perimeter(width) < patch.indices@.len())
}

/// Is the cluster worth keeping as a region of its own? Its area is at
/// least the lower limit and less than the upper one, and unless the
/// lower limit is 0 its image has fewer boundary pixels than pixels.
fn patch_good(parent: &ClustersView, patch: &Cluster, good_min_area: usize, good_max_area: usize) -> (g:
    bool)
    requires
        parent.wf(),
        patch.wf(parent.width as int, parent.height as int),
        patch.indices@.len() > 0,
    ensures
        g == spec_patch_good(patch, parent.width as int, good_min_area, good_max_area),
{
    if good_min_area <= patch.area() && patch.area() < good_max_area {
        proof {
            patch.lemma_inside_rect(parent.width as int, parent.height as int);
            patch.lemma_rect_in_frame(parent.width as int, parent.height as int);
            assert(patch.rect.spec_width() * patch.rect.spec_height() <= parent.width
                * parent.height) by (nonlinear_arith)
                requires
                    0 <= patch.rect.spec_width() <= parent.width,
                    0 <= patch.rect.spec_height() <= parent.height,
            ;
        }
        if good_min_area == 0 || (patch.perimeter(parent) as usize) < patch.area() {
            return true;
        }
    }
    false
}

impl RunnerPredicates {
    #[verifier::type_invariant]
    spec fn inv(self) -> bool {
        0 <= self.shift < 8
    }

    /// The least area of a cluster that is kept as a region of its own,
    /// and the area from which on it is not.
    pub closed spec fn area_limits(self) -> (usize, usize) {
        (self.good_min_area, self.good_max_area)
    }

    /// The number of low bits left out when two colours are compared, and
    /// the difference up to which they count as the same.
    pub closed spec fn sameness(self) -> (i32, i32) {
        (self.shift, self.thres)
    }

    /// The difference to its nearest neighbour above which a cluster is
    /// kept, and the number of neighbours up to which it is a hole.
    pub closed spec fn thresholds(self) -> (i32, usize) {
        (self.deepen_diff, self.hollow_neighbours)
    }

    /// The predicates that a configuration asks for.
    pub fn new(config: &RunnerConfig) -> (p: Self)
        requires
            0 <= config.is_same_color_a < 8,
        ensures
            p.area_limits() == (config.good_min_area, config.good_max_area),
            p.sameness() == (config.is_same_color_a, config.is_same_color_b),
            p.thresholds() == (config.deepen_diff, config.hollow_neighbours),
    {
        Self {
            good_min_area: config.good_min_area,
            good_max_area: config.good_max_area,
            shift: config.is_same_color_a,
            thres: config.is_same_color_b,
            deepen_diff: config.deepen_diff,
            hollow_neighbours: config.hollow_neighbours,
        }
    }
}

impl RunnerPredicates {
    /// Are two colours the same but for their lowest bits and the
    /// threshold?
    pub fn is_same(&self, a: Color, b: Color) -> (s: bool)
        ensures
            s == spec_color_same(a, b, self.sameness().0, self.sameness().1),
    {
        proof {
            use_type_invariant(self);
        }
        color_same(a, b, self.shift, self.thres)
    }

    /// Is the cluster kept as a region of its own before it is merged?
    /// Only one whose area is at least the lower limit and less than the
    /// upper one, and whose nearest neighbour differs by more than the
    /// threshold.
    pub fn is_deep(&self, view: &ClustersView, cluster: &Cluster, neighbours: &[NeighbourInfo]) -> (d:
        bool)
        requires
            view.wf(),
            cluster.wf(view.width as int, view.height as int),
            cluster.indices@.len() > 0,
            neighbours@.len() > 0,
        ensures
            d == (spec_patch_good(
                cluster,
                view.width as int,
                self.area_limits().0,
                self.area_limits().1,
            ) && neighbours@[0].diff > self.thresholds().0),
    {
        patch_good(view, cluster, self.good_min_area, self.good_max_area) && neighbours[0].diff
            > self.deepen_diff
    }

    /// Is the cluster a hole of the cluster that it is merged into? One
    /// with no more neighbours than the threshold.
    pub fn is_hollow(&self, neighbours: &[NeighbourInfo]) -> (h: bool)
        ensures
            h == (neighbours@.len() <= self.thresholds().1),
    {
        neighbours.len() <= self.hollow_neighbours
    }
}

impl Predicates for RunnerPredicates {
    open spec fn spec_same(&self, a: Color, b: Color) -> bool {
        spec_color_same(a, b, self.sameness().0, self.sameness().1)
    }

    fn same(&self, a: Color, b: Color) -> (s: bool) {
        self.is_same(a, b)
    }

    open spec fn spec_diff(&self, a: Color, b: Color) -> i32 {
        spec_color_diff(a, b) as i32
    }

    fn diff(&self, a: Color, b: Color) -> (d: i32) {
        color_diff(a, b)
    }

    open spec fn spec_deepen(&self, view: &ClustersView, cluster: &Cluster, neighbours: &[NeighbourInfo]) -> bool {
        spec_patch_good(cluster, view.width as int, self.area_limits().0, self.area_limits().1)
            && neighbours@[0].diff > self.thresholds().0
    }

    fn deepen(&self, view: &ClustersView, cluster: &Cluster, neighbours: &[NeighbourInfo]) -> (d:
        bool) {
        self.is_deep(view, cluster, neighbours)
    }

    open spec fn spec_hollow(&self, view: &ClustersView, cluster: &Cluster, neighbours: &[NeighbourInfo]) -> bool {
        neighbours@.len() <= self.thresholds().1
    }

    fn hollow(&self, view: &ClustersView, cluster: &Cluster, neighbours: &[NeighbourInfo]) -> (h:
        bool) {
        self.is_hollow(neighbours)
    }
}

impl Runner {
    /// The image and the numbers are such that the clustering can start.
    pub open spec fn ready(&self) -> bool {
        &&& 0 <= self.config.is_same_color_a < 8
        &&& 0 <= self.config.batch_size
        &&& self.image.wf()
        &&& self.image.width <= u32::MAX
        &&& self.image.height <= u32::MAX
        &&& 255 * (self.image.width * self.image.height) <= u32::MAX
    }

    pub fn new(config: RunnerConfig, image: ColorImage) -> (r: Self)
        ensures
            r.config == config,
            r.image == image,
    {
        Self { config, image }
    }

    /// Sets the image.
    pub fn init(&mut self, image: ColorImage)
        ensures
            final(self).image == image,
            final(self).config == old(self).config,
    {
        self.image = image;
    }

    /// `b` is the builder that the configuration asks for: it has the
    /// image, the settings of the configuration, no key colour, and the
    /// predicates with the numbers of the configuration.
    pub open spec fn builds(&self, b: &Builder<RunnerPredicates>) -> bool {
        &&& b.image == Some(self.image)
        &&& b.conf.diagonal == self.config.diagonal
        &&& b.conf.hierarchical == self.config.hierarchical
        &&& b.conf.batch_size == self.config.batch_size
        &&& b.conf.key == Color::spec_transparent()
        &&& b.conf.keying_action is Keep
        &&& b.predicates is Some
        &&& b.predicates->0.area_limits() == (self.config.good_min_area, self.config.good_max_area)
        &&& b.predicates->0.sameness() == (self.config.is_same_color_a, self.config.is_same_color_b)
        &&& b.predicates->0.thresholds() == (self.config.deepen_diff, self.config.hollow_neighbours)
    }

    /// The builder that the configuration asks for.
    pub fn builder(self) -> (b: Builder<RunnerPredicates>)
        requires
            self.ready(),
        ensures
            b.ready(),
            b.image == Some(self.image),
            b.conf.diagonal == self.config.diagonal,
            b.conf.hierarchical == self.config.hierarchical,
            b.conf.batch_size == self.config.batch_size,
            b.conf.key == Color::spec_transparent(),
            b.conf.keying_action is Keep,
            self.builds(&b),
    {
        let predicates = RunnerPredicates::new(&self.config);
        Builder::new().from(self.image).diagonal(self.config.diagonal).hierarchical(
            self.config.hierarchical,
        ).batch_size(self.config.batch_size as u32).predicates(predicates)
    }

    pub fn start(self) -> (ib: IncrementalBuilder<RunnerPredicates>)
        requires
            self.ready(),
        ensures
            ib.builder_impl is Some,
            ib.builder_impl->0.inv(),
            ib.builder_impl->0.stage == 1,
            ib.builder_impl->0.iteration == 0,
    {
        self.builder().start()
    }

    /// Clusters the image as the configuration asks: what the builder of
    /// the configuration leaves when it is ticked to the end.
    pub fn run(self) -> (r: Clusters)
        requires
            self.ready(),
            self.config.batch_size > 0,
        ensures
            r.wf(),
            r.width == self.image.width,
            r.height == self.image.height,
            r.pixels@ == self.image.pixels@,
            self.config.hierarchical == 0 ==> all_emitted(r.clusters@, r.clusters_output@)
                && ascending_from(r.clusters@, r.clusters_output@, 0),
            exists|b: Builder<RunnerPredicates>| #[trigger] self.builds(&b) && ran(&b, &r),
    {
        let b = self.builder();
        let r = b.run();
        proof {
            assert(self.builds(&b) && ran(&b, &r));
        }
        r
    }
}

} // verus!
