//! The two-stage builder of the cluster hierarchy.

use vstd::prelude::*;

use crate::color::Color;
use crate::color::ColorSum;
use crate::color_clusters::cluster::cells_of_indices;
use crate::color_clusters::cluster::lemma_distinct_len;
use crate::color_clusters::cluster::is_neighbour_list;
use crate::color_clusters::cluster::Cluster;
use crate::color_clusters::container::labels_consistent;
use crate::color_clusters::container::all_emitted;
use crate::color_clusters::container::ascending_from;
use crate::color_clusters::container::is_output;
use crate::color_clusters::container::owns;
use crate::color_clusters::container::owns_none;
use crate::color_clusters::container::state_wf;
use crate::color_clusters::container::ClusterIndex;
use crate::color_clusters::container::Clusters;
use crate::color_clusters::container::ClustersView;
use crate::color_clusters::histogram::bins_sorted;
use crate::color_clusters::histogram::bins_within;
use crate::color_clusters::histogram::bump_area;
use crate::color_clusters::histogram::bumped;
use crate::color_clusters::histogram::dropped;
use crate::color_clusters::histogram::drop_area;
use crate::color_clusters::histogram::lemma_bins_bounded;
use crate::color_clusters::histogram::Area;
use crate::grid::lemma_index_to_cell;
use crate::image::ColorImage;
use crate::sorting::is_keyed_sort;
use crate::sorting::is_stable_sort;
use crate::sorting::lemma_keyed_is_stable;
use crate::sorting::sort_keyed;
use crate::sorting::lemma_sorted_covers;
use crate::sorting::stably_sorted;

verus! {

/// What to do with pixels that match the key colour.
#[derive(Clone, Copy)]
pub enum KeyingAction {
    Keep,
    Discard,
}

impl Default for KeyingAction {
    fn default() -> (k: Self)
        ensures
            k is Keep,
    {
        KeyingAction::Keep
    }
}

#[derive(Clone, Copy)]
pub struct BuilderConfig {
    pub diagonal: bool,
    pub hierarchical: u32,
    pub batch_size: u32,
    pub key: Color,
    pub keying_action: KeyingAction,
}

impl Default for BuilderConfig {
    fn default() -> (c: Self)
        ensures
            c.diagonal,
            c.hierarchical == HIERARCHICAL_MAX,
            c.batch_size == 10000,
            c.key == Color::spec_transparent(),
            c.keying_action is Keep,
    {
        Self {
            diagonal: true,
            hierarchical: HIERARCHICAL_MAX,
            batch_size: 10000,
            key: Color::default(),
            keying_action: KeyingAction::Keep,
        }
    }
}

/// A neighbouring cluster and how much its colour differs.
#[derive(Clone, Copy)]
pub struct NeighbourInfo {
    pub index: ClusterIndex,
    pub diff: i32,
}

/// The hierarchical threshold that means "no limit".
pub const HIERARCHICAL_MAX: u32 = 0xffff_ffff;

/// The four decisions that the caller supplies. Each is a function of its
/// arguments alone: the spec function beside it says what it decides.
pub trait Predicates {
    /// What `same` decides.
    spec fn spec_same(&self, a: Color, b: Color) -> bool;

    /// May two pixels of these colours share a cluster during labelling?
    fn same(&self, a: Color, b: Color) -> (s: bool)
        ensures
            s == self.spec_same(a, b),
    ;

    /// What `diff` returns.
    spec fn spec_diff(&self, a: Color, b: Color) -> i32;

    /// The ordering key when a merge target is chosen: smaller is closer.
    fn diff(&self, a: Color, b: Color) -> (d: i32)
        ensures
            d == self.spec_diff(a, b),
    ;

    /// What `deepen` decides.
    spec fn spec_deepen(&self, view: &ClustersView, cluster: &Cluster, neighbours: &[NeighbourInfo]) -> bool;

    /// Is `cluster` recorded as an output of its own before it is merged?
    fn deepen(&self, view: &ClustersView, cluster: &Cluster, neighbours: &[NeighbourInfo]) -> (d:
        bool)
        requires
            view.wf(),
            cluster.wf(view.width as int, view.height as int),
            cluster.indices@.len() > 0,
            neighbours@.len() > 0,
        ensures
            d == self.spec_deepen(view, cluster, neighbours),
    ;

    /// What `hollow` decides.
    spec fn spec_hollow(&self, view: &ClustersView, cluster: &Cluster, neighbours: &[NeighbourInfo]) -> bool;

    /// Are the pixels of `cluster` recorded as a hole of the cluster that
    /// it is merged into?
    fn hollow(&self, view: &ClustersView, cluster: &Cluster, neighbours: &[NeighbourInfo]) -> (h:
        bool)
        requires
            view.wf(),
            cluster.wf(view.width as int, view.height as int),
            cluster.indices@.len() > 0,
            neighbours@.len() > 0,
        ensures
            h == self.spec_hollow(view, cluster, neighbours),
    ;
}

/// `ranked` holds `infos` in ascending order of their keys, neighbours of
/// equal key in their former order.
pub open spec fn ranked_by_key(infos: Seq<NeighbourInfo>, ranked: Seq<NeighbourInfo>) -> bool {
    stably_sorted(infos, ranked, |i: NeighbourInfo| spec_neighbour_key(i))
}

/// The key by which neighbours are ordered: the difference first, then
/// the label.
pub open spec fn spec_neighbour_key(info: NeighbourInfo) -> int {
    info.diff * 65535 + info.index.0
}

pub fn neighbour_key(info: &NeighbourInfo) -> (k: i64)
    ensures
        k == spec_neighbour_key(*info),
{
    info.diff as i64 * 65535 + info.index.0 as i64
}

/// Puts the neighbours in ascending order of their keys, neighbours of
/// equal key staying in their former order.
fn sort_infos(infos: &mut Vec<NeighbourInfo>)
    ensures
        stably_sorted(old(infos)@, final(infos)@, |i: NeighbourInfo| spec_neighbour_key(i)),
{
    let ghost items = infos@;
    let mut keyed: Vec<(i128, NeighbourInfo)> = Vec::new();
    let n = infos.len();
    let mut k: usize = 0;
    while k < n
        invariant
            k <= n,
            n == infos@.len(),
            infos@ == items,
            keyed@.len() == k,
            forall|t: int|
                0 <= t < k ==> (#[trigger] keyed@[t]).1 == items[t] && keyed@[t].0
                    == spec_neighbour_key(items[t]),
        decreases n - k,
    {
        keyed.push((neighbour_key(&infos[k]) as i128, infos[k]));
        k += 1;
    }
    let ghost pairs = keyed@;
    let sorted = sort_keyed(keyed);
    proof {
        let src = choose|src: Seq<int>| is_keyed_sort(pairs, sorted@, src);
        lemma_keyed_is_stable(items, pairs, sorted@, |i: NeighbourInfo| spec_neighbour_key(i), src);
    }
    *infos = sorted;
}

/// Puts the clusters in ascending order of their areas, clusters of equal
/// area staying in their former order.
fn sort_by_area(list: &mut Vec<(ClusterIndex, usize)>)
    ensures
        stably_sorted(old(list)@, final(list)@, |c: (ClusterIndex, usize)| c.1 as int),
{
    let ghost items = list@;
    let mut keyed: Vec<(i128, (ClusterIndex, usize))> = Vec::new();
    let n = list.len();
    let mut k: usize = 0;
    while k < n
        invariant
            k <= n,
            n == list@.len(),
            list@ == items,
            keyed@.len() == k,
            forall|t: int|
                0 <= t < k ==> (#[trigger] keyed@[t]).1 == items[t] && keyed@[t].0 == items[t].1,
        decreases n - k,
    {
        keyed.push((list[k].1 as i128, list[k]));
        k += 1;
    }
    let ghost pairs = keyed@;
    let sorted = sort_keyed(keyed);
    proof {
        let src = choose|src: Seq<int>| is_keyed_sort(pairs, sorted@, src);
        lemma_keyed_is_stable(items, pairs, sorted@, |c: (ClusterIndex, usize)| c.1 as int, src);
    }
    *list = sorted;
}

/// Assembles a clustering: the image, the predicates and the settings.
pub struct Builder<P> {
    pub conf: BuilderConfig,
    pub predicates: Option<P>,
    pub image: Option<ColorImage>,
}

/// A clustering that is carried out tick by tick.
pub struct IncrementalBuilder<P> {
    pub builder_impl: Option<BuilderImpl<P>>,
}

/// The state of a clustering.
pub struct BuilderImpl<P> {
    pub diagonal: bool,
    pub hierarchical: u32,
    pub batch_size: u32,
    pub key: Color,
    pub keying_action: KeyingAction,
    pub predicates: P,
    pub width: u32,
    pub height: u32,
    /// Raw bytes, 4 bytes a pixel.
    pub pixels: Vec<u8>,
    pub clusters: Vec<Cluster>,
    /// The label of each pixel.
    pub cluster_indices: Vec<ClusterIndex>,
    /// The histogram of cluster areas, sorted by area.
    pub cluster_areas: Vec<Area>,
    /// The labels of the output clusters, in the order recorded.
    pub clusters_output: Vec<ClusterIndex>,
    pub stage: u32,
    pub iteration: u32,
    pub next_index: ClusterIndex,
}

/// `bins` is the histogram of the areas of the first `n` of `clusters`:
/// one after the other, in the order of the labels, each cluster but
/// cluster 0 that holds pixels was recorded with its area.
pub open spec fn tallied(bins: Seq<Area>, clusters: Seq<Cluster>, n: int) -> bool
    decreases n,
{
    if n <= 1 {
        bins.len() == 0
    } else {
        exists|mid: Seq<Area>| #[trigger]
            bins_sorted(mid) && tallied(mid, clusters, n - 1) && (if clusters[n - 1].indices@.len()
                > 0 {
                bumped(bins, mid, clusters[n - 1].indices@.len() as usize)
            } else {
                bins == mid
            })
    }
}

/// No cluster lost pixels unless it was merged away, and a cluster that
/// was merged away stays so.
pub open spec fn grew_or_merged(before: Seq<Cluster>, after: Seq<Cluster>) -> bool {
    &&& after.len() == before.len()
    &&& forall|c: int|
        0 <= c < before.len() ==> (#[trigger] after[c]).indices@.len() >= before[c].indices@.len()
            || after[c].merged_into.0 != c
    &&& forall|c: int|
        0 <= c < before.len() && before[c].merged_into.0 != c ==> (#[trigger] after[c]).merged_into.0
            != c
}

impl<P: Predicates> BuilderImpl<P> {
    /// The number of pixels.
    pub open spec fn n(&self) -> int {
        self.cluster_indices@.len() as int
    }

    /// How many pixels the raster scan has labelled.
    pub open spec fn scanned(&self) -> int {
        if self.stage == 1 {
            self.iteration as int
        } else {
            self.n()
        }
    }

    /// Every output label names a cluster.
    pub open spec fn outputs_valid(&self) -> bool {
        forall|o: int|
            0 <= o < self.clusters_output@.len() ==> (#[trigger] self.clusters_output@[o]).0
                < self.clusters@.len()
    }

    /// The clusters from the next free label on are empty.
    pub open spec fn free_labels_empty(&self) -> bool {
        forall|c: int|
            self.next_index.0 <= c < self.clusters@.len() ==> (#[trigger] self.clusters@[c]).indices@.len()
                == 0
    }

    /// Every pixel of a cluster was scanned.
    pub open spec fn indices_scanned(&self) -> bool {
        forall|c: int, k: int|
            0 <= c < self.clusters@.len() && 0 <= k < self.clusters@[c].indices@.len() ==> (
            #[trigger] self.clusters@[c].indices@[k]) < self.scanned()
    }

    /// A pixel that was not scanned has the label 0.
    pub open spec fn unscanned_unlabelled(&self) -> bool {
        forall|p: int|
            self.scanned() <= p < self.n() ==> (#[trigger] self.cluster_indices@[p]).0 == 0
    }

    /// In the first stage every cluster owns its pixels and records
    /// nothing else.
    pub open spec fn first_stage_plain(&self) -> bool {
        self.stage == 1 ==> forall|c: int|
            0 <= c < self.clusters@.len() ==> #[trigger] owns(
                self.clusters@,
                self.cluster_indices@,
                c,
            ) && self.clusters@[c].extras_blank()
    }

    /// A scanned pixel with the label 0 is held by cluster 0, unless it
    /// has the key colour and such pixels are discarded.
    pub open spec fn zero_held(&self) -> bool {
        forall|p: int|
            0 <= p < self.scanned() && (#[trigger] self.cluster_indices@[p]).0 == 0 && !(
            self.keyed(p) && self.keying_action is Discard)
                ==> self.clusters@[0].indices@.contains(p as u32)
    }

    /// A cluster that holds pixels has not been merged away: it is its
    /// own `merged_into`. In the first stage every cluster is.
    pub open spec fn keepers_own(&self) -> bool {
        forall|c: int|
            0 <= c < self.clusters@.len() && (self.stage == 1 || (
            #[trigger] self.clusters@[c]).indices@.len() > 0) ==> self.clusters@[c].merged_into.0
                == c
    }

    /// In the second stage the histogram is in order and the frontier
    /// within it.
    pub open spec fn second_stage_bins(&self) -> bool {
        self.stage == 2 ==> bins_sorted(self.cluster_areas@) && bins_within(
            self.cluster_areas@,
            self.n(),
        ) && self.iteration <= self.cluster_areas@.len()
    }

    /// What holds of the state between any two steps.
    pub open spec fn inv(&self) -> bool {
        &&& self.stage >= 1
        &&& state_wf(
            self.clusters@,
            self.cluster_indices@,
            self.width as int,
            self.height as int,
        )
        &&& self.pixels@.len() == 4 * self.cluster_indices@.len()
        &&& self.outputs_valid()
        &&& 1 <= self.next_index.0 <= self.clusters@.len() <= self.next_index.0 + 1
        &&& self.clusters@.len() <= self.scanned() + 1
        &&& self.free_labels_empty()
        &&& 0 <= self.scanned() <= self.n()
        &&& self.indices_scanned()
        &&& self.unscanned_unlabelled()
        &&& self.first_stage_plain()
        &&& self.second_stage_bins()
        &&& self.keepers_own()
        &&& self.zero_held()
    }

    /// The settings, the image and the progress counters are those of `other`.
    pub open spec fn same_setup(&self, other: &Self) -> bool {
        &&& self.same_config(other)
        &&& self.stage == other.stage
        &&& self.iteration == other.iteration
    }

    /// The settings and the image are those of `other`.
    pub open spec fn same_config(&self, other: &Self) -> bool {
        &&& self.diagonal == other.diagonal
        &&& self.hierarchical == other.hierarchical
        &&& self.batch_size == other.batch_size
        &&& self.key == other.key
        &&& self.keying_action == other.keying_action
        &&& self.predicates == other.predicates
        &&& self.width == other.width
        &&& self.height == other.height
        &&& self.pixels@ == other.pixels@
        &&& self.cluster_indices@.len() == other.cluster_indices@.len()
    }

    /// How far the clustering is from its end: every tick that does not
    /// end it brings this down.
    pub open spec fn remaining(&self) -> int {
        if self.stage == 1 {
            2 * self.n() + 3 - self.iteration
        } else if self.stage == 2 {
            self.n() + 2 - self.iteration
        } else {
            0
        }
    }

    pub fn get_cluster(&self, index: ClusterIndex) -> (c: &Cluster)
        requires
            index.0 < self.clusters@.len(),
        ensures
            *c == self.clusters@[index.0 as int],
    {
        &self.clusters[index.0 as usize]
    }

    pub fn get_cluster_mut(&mut self, index: ClusterIndex) -> (c: &mut Cluster)
        requires
            index.0 < old(self).clusters@.len(),
        ensures
            *c == old(self).clusters@[index.0 as int],
            final(self).clusters@ == old(self).clusters@.update(index.0 as int, *final(c)),
            final(self).same_setup(old(self)),
            final(self).cluster_indices == old(self).cluster_indices,
            final(self).cluster_areas == old(self).cluster_areas,
            final(self).clusters_output == old(self).clusters_output,
            final(self).next_index == old(self).next_index,
    {
        &mut self.clusters[index.0 as usize]
    }

    /// Hands the clusters over.
    pub fn result(self) -> (r: Clusters)
        ensures
            r.width == self.width,
            r.height == self.height,
            r.pixels@ == self.pixels@,
            r.clusters@ == self.clusters@,
            r.cluster_indices@ == self.cluster_indices@,
            r.clusters_output@ == self.clusters_output@,
            self.inv() ==> r.wf(),
    {
        Clusters {
            width: self.width,
            height: self.height,
            pixels: self.pixels,
            clusters: self.clusters,
            cluster_indices: self.cluster_indices,
            clusters_output: self.clusters_output,
        }
    }

    /// A read-only view of the state.
    pub fn view(&self) -> (v: ClustersView<'_>)
        ensures
            v.width == self.width,
            v.height == self.height,
            v.pixels@ == self.pixels@,
            v.clusters@ == self.clusters@,
            v.cluster_indices@ == self.cluster_indices@,
            v.clusters_output@ == self.clusters_output@,
            self.inv() ==> v.wf(),
    {
        ClustersView {
            width: self.width,
            height: self.height,
            pixels: self.pixels.as_slice(),
            clusters: self.clusters.as_slice(),
            cluster_indices: self.cluster_indices.as_slice(),
            clusters_output: self.clusters_output.as_slice(),
        }
    }

    /// Progress in percent: up to 50 while pixels are scanned, in
    /// proportion to the pixels scanned; from 50 while clusters are merged,
    /// in proportion to the histogram bins passed; 100 at the end.
    pub fn progress(&self) -> (p: u32)
        requires
            self.inv(),
            self.stage == 1 ==> self.n() > 0,
            self.stage == 2 ==> self.cluster_areas@.len() > 0,
        ensures
            self.stage == 1 ==> p == 50 * self.iteration / self.n(),
            self.stage == 2 ==> p == 50 + 50 * self.iteration / (
            self.cluster_areas@.len() as int),
            self.stage > 2 ==> p == 100,
            p <= 100,
    {
        if self.stage == 1 {
            let len = self.cluster_indices.len() as u64;
            let q: u64 = 50 * (self.iteration as u64) / len;
            assert(q <= 50) by (nonlinear_arith)
                requires
                    q == 50 * (self.iteration as int) / (len as int),
                    0 <= self.iteration <= len,
                    len > 0,
            ;
            q as u32
        } else if self.stage == 2 {
            let len = self.cluster_areas.len() as u64;
            let q: u64 = 50 * (self.iteration as u64) / len;
            assert(q <= 50) by (nonlinear_arith)
                requires
                    q == 50 * (self.iteration as int) / (len as int),
                    0 <= self.iteration <= len,
                    len > 0,
            ;
            50 + q as u32
        } else {
            100
        }
    }

    /// The colour of the pixel of index `i`, or `None` past the end of the
    /// store.
    fn get_pixel(&self, i: u32) -> (c: Option<Color>)
        ensures
            c == (if 4 * i + 3 < self.pixels@.len() {
                Some(self.view_pixel(i as int))
            } else {
                None
            }),
    {
        let n = self.pixels.len();
        let first: u64 = i as u64 * 4;
        if first + 3 < n as u64 {
            let start = first as usize;
            Some(
                Color::new_rgba(
                    self.pixels[start],
                    self.pixels[start + 1],
                    self.pixels[start + 2],
                    self.pixels[start + 3],
                ),
            )
        } else {
            None
        }
    }

    /// The colour stored for the pixel of index `i`.
    pub open spec fn view_pixel(&self, i: int) -> Color {
        Color {
            r: self.pixels@[4 * i],
            g: self.pixels@[4 * i + 1],
            b: self.pixels@[4 * i + 2],
            a: self.pixels@[4 * i + 3],
        }
    }

    /// The colour at `(x, y)`, or `None` above or left of the image.
    fn pixel_at(&self, x: i32, y: i32) -> (c: Option<Color>)
        requires
            self.inv(),
            x < self.width,
            y < self.height,
        ensures
            c is Some <==> (x >= 0 && y >= 0),
            c is Some ==> c == Some(self.view_pixel(y * self.width + x)),
    {
        if x < 0 || y < 0 {
            return None;
        }
        proof {
            crate::grid::lemma_cell_index_bound(
                x as int,
                y as int,
                self.width as int,
                self.height as int,
            );
            assert(self.width * self.height == self.height * self.width) by (nonlinear_arith);
        }
        self.get_pixel(y as u32 * self.width + x as u32)
    }

    /// Do the predicates hold the two colours for the same? Not where a
    /// colour is missing.
    fn is_same(&self, left: Option<Color>, right: Option<Color>) -> (s: bool)
        ensures
            s == (left is Some && right is Some && self.predicates.spec_same(left->0, right->0)),
    {
        match (left, right) {
            (Some(l), Some(r)) => self.predicates.same(l, r),
            _ => false,
        }
    }

    /// Everything but the clusters and the labels is as in `other`.
    pub open spec fn same_frame(&self, other: &Self) -> bool {
        &&& self.same_setup(other)
        &&& self.cluster_areas@ == other.cluster_areas@
        &&& self.clusters_output@ == other.clusters_output@
        &&& self.next_index == other.next_index
        &&& self.clusters@.len() == other.clusters@.len()
    }

    /// Moves the pixels of cluster `from` into cluster `to`: relabels
    /// them, appends them to the target's list, adds the colour sum and
    /// the rect to the target's, and leaves the source without pixels,
    /// with a zero sum and a zero rect.
    #[verifier::rlimit(40)]
    fn combine_clusters(&mut self, from: ClusterIndex, to: ClusterIndex)
        requires
            old(self).inv(),
            from != to,
            from.0 < old(self).clusters@.len(),
            to.0 < old(self).next_index.0,
            owns(old(self).clusters@, old(self).cluster_indices@, from.0 as int),
            owns(old(self).clusters@, old(self).cluster_indices@, to.0 as int),
            old(self).clusters@[to.0 as int].indices@.len() > 0 || old(self).clusters@[to.0 as int].extras_blank(),
            old(self).clusters@[to.0 as int].merged_into == to,
        ensures
            final(self).inv(),
            final(self).same_frame(old(self)),
            forall|c: int|
                0 <= c < old(self).clusters@.len() && c != from.0 && c != to.0 ==> #[trigger] final(self).clusters@[c] == old(self).clusters@[c],
            final(self).clusters@[to.0 as int].indices@ == old(self).clusters@[to.0 as int].indices@
                + old(self).clusters@[from.0 as int].indices@,
            final(self).clusters@[to.0 as int].sum == old(self).clusters@[to.0 as int].sum.spec_merge(
                old(self).clusters@[from.0 as int].sum,
            ),
            final(self).clusters@[to.0 as int].holes == old(self).clusters@[to.0 as int].holes,
            final(self).clusters@[to.0 as int].num_holes == old(self).clusters@[to.0 as int].num_holes,
            final(self).clusters@[to.0 as int].depth == old(self).clusters@[to.0 as int].depth,
            final(self).clusters@[to.0 as int].residue_sum == old(self).clusters@[to.0 as int].residue_sum,
            final(self).clusters@[to.0 as int].merged_into == old(self).clusters@[to.0 as int].merged_into,
            final(self).clusters@[from.0 as int].indices@.len() == 0,
            final(self).clusters@[from.0 as int].sum == ColorSum::spec_zero(),
            final(self).clusters@[from.0 as int].rect == crate::bound::BoundingRect::spec_zero(),
            final(self).clusters@[from.0 as int].holes == old(self).clusters@[from.0 as int].holes,
            final(self).clusters@[from.0 as int].num_holes == old(self).clusters@[from.0 as int].num_holes,
            final(self).clusters@[from.0 as int].depth == old(self).clusters@[from.0 as int].depth,
            final(self).clusters@[from.0 as int].residue_sum == old(self).clusters@[from.0 as int].residue_sum,
            final(self).clusters@[from.0 as int].merged_into == old(self).clusters@[from.0 as int].merged_into,
            owns(final(self).clusters@, final(self).cluster_indices@, to.0 as int),
            forall|c: int|
                0 <= c < old(self).clusters@.len() && c != from.0 && #[trigger] owns(
                    old(self).clusters@,
                    old(self).cluster_indices@,
                    c,
                ) ==> owns(final(self).clusters@, final(self).cluster_indices@, c),
            forall|p: int|
                0 <= p < old(self).n() ==> #[trigger] final(self).cluster_indices@[p] == (if old(self).clusters@[from.0 as int].indices@.contains(p as u32) {
                    to
                } else {
                    old(self).cluster_indices@[p]
                }),
    {
        let ghost w = self.width as int;
        let ghost h = self.height as int;
        let ghost old_from = old(self).clusters@[from.0 as int];
        let ghost old_to = old(self).clusters@[to.0 as int];
        let ghost old_grid = old(self).cluster_indices@;
        let n_from = self.clusters[from.0 as usize].indices.len();
        let mut j: usize = 0;
        while j < n_from
            invariant
                j <= n_from,
                old(self).inv(),
                w == old(self).width,
                h == old(self).height,
                n_from == old_from.indices@.len(),
                old_from == old(self).clusters@[from.0 as int],
                old_grid == old(self).cluster_indices@,
                from.0 < old(self).clusters@.len(),
                self.clusters@ == old(self).clusters@,
                self.same_frame(old(self)),
                forall|k: int| 0 <= k < j ==> self.cluster_indices@[(#[trigger] old_from.indices@[k]) as int] == to,
                forall|p: int|
                    0 <= p < old_grid.len() && #[trigger] self.cluster_indices@[p] != old_grid[p]
                        ==> self.cluster_indices@[p] == to && old_from.indices@.contains(p as u32),
            decreases n_from - j,
        {
            let i = self.clusters[from.0 as usize].indices[j];
            proof {
                assert(old_from.wf(w, h));
                assert(old_from.indices@[j as int] < w * h);
                assert(old_from.indices@.contains(i));
            }
            self.cluster_indices.set(i as usize, to);
            j += 1;
        }
        proof {
            assert(old_from.wf(w, h) && old_to.wf(w, h));
            assert forall|a: int, b: int|
                0 <= a < old_to.indices@.len() && 0 <= b < old_from.indices@.len() implies old_to.indices@[a]
                != old_from.indices@[b] by {
                assert(old_grid[old_to.indices@[a] as int].0 == to.0);
                assert(old_grid[old_from.indices@[b] as int].0 == from.0);
            }
            vstd::seq_lib::lemma_no_dup_in_concat(old_to.indices@, old_from.indices@);
            lemma_distinct_len(old_to.indices@ + old_from.indices@, w * h);
            assert(255 * (old_to.indices@.len() + old_from.indices@.len()) <= u32::MAX)
                by (nonlinear_arith)
                requires
                    old_to.indices@.len() + old_from.indices@.len() <= w * h,
                    255 * (w * h) <= u32::MAX,
            ;
        }
        let mut indices: Vec<u32> = Vec::new();
        core::mem::swap(&mut self.clusters[from.0 as usize].indices, &mut indices);
        self.clusters[to.0 as usize].indices.append(&mut indices);
        let sum = self.clusters[from.0 as usize].sum;
        let rect = self.clusters[from.0 as usize].rect;
        self.clusters[to.0 as usize].sum.merge(&sum);
        self.clusters[to.0 as usize].rect.merge(rect);
        self.clusters[from.0 as usize].sum.clear();
        self.clusters[from.0 as usize].rect.clear();
        proof {
            let new_to = self.clusters@[to.0 as int];
            let new_from = self.clusters@[from.0 as int];
            let grid = self.cluster_indices@;
            assert(new_to.indices@ == old_to.indices@ + old_from.indices@);
            assert forall|c: int|
                0 <= c < self.clusters@.len() && c != from.0 && c != to.0 implies #[trigger] self.clusters@[c]
                == old(self).clusters@[c] by {}
            // the labels after the move
            assert forall|p: int| 0 <= p < old(self).n() implies #[trigger] grid[p] == (
            if old_from.indices@.contains(p as u32) {
                to
            } else {
                old_grid[p]
            }) by {
                if old_from.indices@.contains(p as u32) {
                    let k = choose|k: int| 0 <= k < old_from.indices@.len() && old_from.indices@[k]
                        == p as u32;
                    assert(grid[old_from.indices@[k] as int] == to);
                }
            }
            // the target is sound
            old_to.rect.lemma_merge_keeps_aabb(
                old_to.cells(w),
                old_from.rect,
                old_from.cells(w),
            );
            assert(new_to.cells(w) =~= old_to.cells(w) + old_from.cells(w));
            assert(new_to.wf(w, h)) by {
                assert forall|k: int| 0 <= k < new_to.indices@.len() implies (#[trigger] new_to.indices@[k])
                    < w * h by {
                    if k < old_to.indices@.len() {
                        assert(new_to.indices@[k] == old_to.indices@[k]);
                    } else {
                        assert(new_to.indices@[k] == old_from.indices@[k - old_to.indices@.len()]);
                    }
                }
                if new_to.indices@.len() > 0 {
                    assert forall|k: int| 0 <= k < new_to.holes@.len() implies new_to.indices@.contains(
                        #[trigger] new_to.holes@[k],
                    ) by {
                        assert(old_to.indices@.contains(old_to.holes@[k]));
                        let a = choose|a: int|
                            0 <= a < old_to.indices@.len() && old_to.indices@[a] == old_to.holes@[k];
                        assert(new_to.indices@[a] == old_to.holes@[k]);
                    }
                }
            }
            assert(new_from.wf(w, h)) by {
                assert(new_from.cells(w) =~= Seq::<(int, int)>::empty());
            }
            assert forall|c: int| 0 <= c < self.clusters@.len() implies (#[trigger] self.clusters@[c]).wf(
                w,
                h,
            ) by {
                if c != from.0 && c != to.0 {
                    assert(self.clusters@[c] == old(self).clusters@[c]);
                }
            }
            // every labelled pixel is held by the cluster of its label
            assert(labels_consistent(self.clusters@, grid)) by {
                assert forall|p: int| 0 <= p < grid.len() && (#[trigger] grid[p]).0 != 0 implies grid[p].0
                    < self.clusters@.len() && self.clusters@[grid[p].0 as int].indices@.contains(
                    p as u32,
                ) by {
                    if old_from.indices@.contains(p as u32) {
                        let k = choose|k: int|
                            0 <= k < old_from.indices@.len() && old_from.indices@[k] == p as u32;
                        assert(new_to.indices@[old_to.indices@.len() + k] == p as u32);
                    } else {
                        let l = old_grid[p].0 as int;
                        assert(old_grid[p].0 != 0);
                        assert(old(self).clusters@[l].indices@.contains(p as u32));
                        let a = choose|a: int|
                            0 <= a < old(self).clusters@[l].indices@.len() && old(self).clusters@[l].indices@[a] == p as u32;
                        if l == to.0 {
                            assert(new_to.indices@[a] == p as u32);
                        } else {
                            assert(l != from.0);
                            assert(self.clusters@[l] == old(self).clusters@[l]);
                        }
                    }
                }
            }
            // who owns what
            assert(owns(self.clusters@, grid, to.0 as int)) by {
                assert forall|k: int| 0 <= k < new_to.indices@.len() implies grid[(
                #[trigger] new_to.indices@[k]) as int].0 == to.0 by {
                    if k < old_to.indices@.len() {
                        assert(new_to.indices@[k] == old_to.indices@[k]);
                        assert(old_grid[old_to.indices@[k] as int].0 == to.0);
                    } else {
                        let k2 = k - old_to.indices@.len();
                        assert(new_to.indices@[k] == old_from.indices@[k2]);
                        assert(old_from.indices@.contains(old_from.indices@[k2]));
                    }
                }
            }
            assert forall|c: int|
                0 <= c < old(self).clusters@.len() && c != from.0 && #[trigger] owns(
                    old(self).clusters@,
                    old_grid,
                    c,
                ) implies owns(self.clusters@, grid, c) by {
                if c != to.0 {
                    assert(self.clusters@[c] == old(self).clusters@[c]);
                    assert forall|k: int| 0 <= k < self.clusters@[c].indices@.len() implies grid[(
                    #[trigger] self.clusters@[c].indices@[k]) as int].0 == c by {
                        let q = old(self).clusters@[c].indices@[k];
                        assert(old_grid[q as int].0 == c);
                        if old_from.indices@.contains(q) {
                            let b = choose|b: int|
                                0 <= b < old_from.indices@.len() && old_from.indices@[b] == q;
                            assert(old_grid[old_from.indices@[b] as int].0 == from.0);
                        }
                    }
                }
            }
            assert forall|c: int| 0 <= c < self.clusters@.len() implies #[trigger] owns(
                self.clusters@,
                grid,
                c,
            ) || owns_none(self.clusters@, grid, c) by {
                if c != from.0 && c != to.0 {
                    assert(self.clusters@[c] == old(self).clusters@[c]);
                    if owns(old(self).clusters@, old_grid, c) {
                    } else {
                        assert(owns_none(old(self).clusters@, old_grid, c));
                        assert forall|k: int|
                            0 <= k < self.clusters@[c].indices@.len() implies grid[(
                        #[trigger] self.clusters@[c].indices@[k]) as int].0 != c by {
                            let q = old(self).clusters@[c].indices@[k];
                            assert(old_grid[q as int].0 != c);
                            assert(q < w * h);
                        }
                    }
                }
            }
            assert forall|c: int, k: int|
                0 <= c < self.clusters@.len() && 0 <= k < self.clusters@[c].indices@.len() implies (
            #[trigger] self.clusters@[c].indices@[k]) < self.scanned() by {
                if c == to.0 {
                    if k < old_to.indices@.len() {
                        assert(new_to.indices@[k] == old_to.indices@[k]);
                    } else {
                        assert(new_to.indices@[k] == old_from.indices@[k - old_to.indices@.len()]);
                    }
                } else if c != from.0 {
                    assert(self.clusters@[c] == old(self).clusters@[c]);
                }
            }
            assert forall|p: int| self.scanned() <= p < self.n() implies (#[trigger] grid[p]).0
                == 0 by {
                if old_from.indices@.contains(p as u32) {
                    let k = choose|k: int|
                        0 <= k < old_from.indices@.len() && old_from.indices@[k] == p as u32;
                    assert(old_from.indices@[k] < old(self).scanned());
                }
            }
            assert forall|c: int| self.next_index.0 <= c < self.clusters@.len() implies (
            #[trigger] self.clusters@[c]).indices@.len() == 0 by {
                if c != from.0 {
                    assert(old(self).clusters@[c].indices@.len() == 0);
                    assert(self.clusters@[c] == old(self).clusters@[c]);
                }
            }
            if self.stage == 1 {
                assert forall|c: int| 0 <= c < self.clusters@.len() implies #[trigger] owns(
                    self.clusters@,
                    grid,
                    c,
                ) && self.clusters@[c].extras_blank() by {
                    assert(owns(old(self).clusters@, old_grid, c));
                    if c != from.0 && c != to.0 {
                        assert(self.clusters@[c] == old(self).clusters@[c]);
                    }
                }
            }
            assert(state_wf(self.clusters@, grid, w, h));
            assert(self.pixels@.len() == 4 * grid.len());
            assert(self.outputs_valid());
            assert(1 <= self.next_index.0 <= self.clusters@.len() <= self.next_index.0 + 1);
            assert(self.clusters@.len() <= self.scanned() + 1);
            assert(self.free_labels_empty());
            assert(0 <= self.scanned() <= self.n());
            assert(self.indices_scanned());
            assert(self.unscanned_unlabelled());
            assert(self.first_stage_plain());
            assert(self.second_stage_bins());
            assert(self.keepers_own()) by {
                assert forall|c: int|
                    0 <= c < self.clusters@.len() && (self.stage == 1 || (
                    #[trigger] self.clusters@[c]).indices@.len() > 0) implies self.clusters@[c].merged_into.0
                    == c by {
                    if c != from.0 && c != to.0 {
                        assert(self.clusters@[c] == old(self).clusters@[c]);
                    }
                    if self.stage == 1 {
                        assert(old(self).clusters@[c].merged_into.0 == c);
                    }
                }
            }
            assert(self.zero_held()) by {
                assert forall|p: int|
                    0 <= p < self.scanned() && (#[trigger] grid[p]).0 == 0 && !(self.keyed(p)
                        && self.keying_action is Discard) implies self.clusters@[0].indices@.contains(
                    p as u32,
                ) by {
                    assert(self.keyed(p) == old(self).keyed(p));
                    if old_from.indices@.contains(p as u32) {
                        let k = choose|k: int|
                            0 <= k < old_from.indices@.len() && old_from.indices@[k] == p as u32;
                        assert(new_to.indices@[old_to.indices@.len() + k] == p as u32);
                    } else {
                        assert(old_grid[p].0 == 0);
                        let held = old(self).clusters@[0].indices@;
                        assert(held.contains(p as u32));
                        let k = choose|k: int| 0 <= k < held.len() && held[k] == p as u32;
                        if to.0 == 0 {
                            assert(new_to.indices@[k] == p as u32);
                        } else {
                            assert(self.clusters@[0] == old(self).clusters@[0]);
                        }
                    }
                }
            }
            assert(self.inv());
        }
    }

    /// The state `self` differs from the sound state `before` only in
    /// what clusters record beyond their pixels, and each cluster is still
    /// sound: then the state is sound.
    proof fn lemma_inv_after_extras(&self, before: &Self)
        requires
            before.inv(),
            before.stage != 1,
            self.same_frame(before),
            self.cluster_indices@ == before.cluster_indices@,
            forall|c: int|
                0 <= c < self.clusters@.len() ==> (#[trigger] self.clusters@[c]).indices@
                    == before.clusters@[c].indices@,
            forall|c: int|
                0 <= c < self.clusters@.len() ==> (#[trigger] self.clusters@[c]).merged_into
                    == before.clusters@[c].merged_into || self.clusters@[c].indices@.len() == 0,
            forall|c: int|
                0 <= c < self.clusters@.len() ==> (#[trigger] self.clusters@[c]).wf(
                    self.width as int,
                    self.height as int,
                ),
        ensures
            self.inv(),
    {
        let grid = self.cluster_indices@;
        assert(labels_consistent(self.clusters@, grid)) by {
            assert forall|p: int| 0 <= p < grid.len() && (#[trigger] grid[p]).0 != 0 implies grid[p].0
                < self.clusters@.len() && self.clusters@[grid[p].0 as int].indices@.contains(
                p as u32,
            ) by {
                assert(before.clusters@[grid[p].0 as int].indices@.contains(p as u32));
            }
        }
        assert forall|c: int| 0 <= c < self.clusters@.len() implies #[trigger] owns(
            self.clusters@,
            grid,
            c,
        ) || owns_none(self.clusters@, grid, c) by {
            if owns(before.clusters@, grid, c) {
                assert forall|k: int| 0 <= k < self.clusters@[c].indices@.len() implies grid[(
                #[trigger] self.clusters@[c].indices@[k]) as int].0 == c by {
                    assert(grid[before.clusters@[c].indices@[k] as int].0 == c);
                }
            } else {
                assert(owns_none(before.clusters@, grid, c));
                assert forall|k: int| 0 <= k < self.clusters@[c].indices@.len() implies grid[(
                #[trigger] self.clusters@[c].indices@[k]) as int].0 != c by {
                    assert(grid[before.clusters@[c].indices@[k] as int].0 != c);
                }
            }
        }
        assert forall|c: int, k: int|
            0 <= c < self.clusters@.len() && 0 <= k < self.clusters@[c].indices@.len() implies (
        #[trigger] self.clusters@[c].indices@[k]) < self.scanned() by {
            assert(before.clusters@[c].indices@[k] < before.scanned());
        }
        assert forall|c: int| self.next_index.0 <= c < self.clusters@.len() implies (
        #[trigger] self.clusters@[c]).indices@.len() == 0 by {
            assert(before.clusters@[c].indices@.len() == 0);
        }
        assert(state_wf(self.clusters@, grid, self.width as int, self.height as int));
    }

    /// Like `combine_clusters`, but the source keeps its own pixels, sum
    /// and rect: the pixels then belong to both lists, and to the target
    /// by their labels.
    fn combine_clusters_clone(&mut self, from: ClusterIndex, to: ClusterIndex)
        requires
            old(self).inv(),
            old(self).stage != 1,
            from != to,
            from.0 < old(self).clusters@.len(),
            to.0 < old(self).next_index.0,
            owns(old(self).clusters@, old(self).cluster_indices@, from.0 as int),
            owns(old(self).clusters@, old(self).cluster_indices@, to.0 as int),
            old(self).clusters@[from.0 as int].indices@.len() > 0,
            old(self).clusters@[to.0 as int].indices@.len() > 0,
        ensures
            final(self).inv(),
            final(self).same_frame(old(self)),
            forall|c: int|
                0 <= c < old(self).clusters@.len() && c != from.0 && c != to.0 ==> #[trigger] final(self).clusters@[c] == old(self).clusters@[c],
            final(self).clusters@[to.0 as int].indices@ == old(self).clusters@[to.0 as int].indices@
                + old(self).clusters@[from.0 as int].indices@,
            final(self).clusters@[to.0 as int].holes == old(self).clusters@[to.0 as int].holes,
            final(self).clusters@[to.0 as int].num_holes == old(self).clusters@[to.0 as int].num_holes,
            final(self).clusters@[to.0 as int].depth == old(self).clusters@[to.0 as int].depth,
            final(self).clusters@[to.0 as int].residue_sum == old(self).clusters@[to.0 as int].residue_sum,
            final(self).clusters@[to.0 as int].merged_into == old(self).clusters@[to.0 as int].merged_into,
            final(self).clusters@[to.0 as int].sum == old(self).clusters@[to.0 as int].sum.spec_merge(
                old(self).clusters@[from.0 as int].sum,
            ),
            forall|p: int|
                0 <= p < old(self).n() ==> #[trigger] final(self).cluster_indices@[p] == (if old(self).clusters@[from.0 as int].indices@.contains(p as u32) {
                    to
                } else {
                    old(self).cluster_indices@[p]
                }),
            final(self).clusters@[from.0 as int].indices@ == old(self).clusters@[from.0 as int].indices@,
            final(self).clusters@[from.0 as int].sum == old(self).clusters@[from.0 as int].sum,
            final(self).clusters@[from.0 as int].rect == old(self).clusters@[from.0 as int].rect,
            final(self).clusters@[from.0 as int].holes == old(self).clusters@[from.0 as int].holes,
            final(self).clusters@[from.0 as int].num_holes == old(self).clusters@[from.0 as int].num_holes,
            final(self).clusters@[from.0 as int].depth == old(self).clusters@[from.0 as int].depth,
            final(self).clusters@[from.0 as int].residue_sum == old(self).clusters@[from.0 as int].residue_sum,
            final(self).clusters@[from.0 as int].merged_into == old(self).clusters@[from.0 as int].merged_into,
            owns(final(self).clusters@, final(self).cluster_indices@, to.0 as int),
            forall|c: int|
                0 <= c < old(self).clusters@.len() && c != from.0 && #[trigger] owns(
                    old(self).clusters@,
                    old(self).cluster_indices@,
                    c,
                ) ==> owns(final(self).clusters@, final(self).cluster_indices@, c),
    {
        let ghost w = self.width as int;
        let ghost h = self.height as int;
        let ghost old_from = old(self).clusters@[from.0 as int];
        let sum = self.clusters[from.0 as usize].sum;
        let rect = self.clusters[from.0 as usize].rect;
        let indices = self.clusters[from.0 as usize].indices.clone();
        assert(indices@ =~= old_from.indices@);
        self.combine_clusters(from, to);
        let ghost mid = *self;
        self.clusters[from.0 as usize].sum = sum;
        self.clusters[from.0 as usize].rect = rect;
        self.clusters[from.0 as usize].indices = indices;
        proof {
            let grid = self.cluster_indices@;
            let new_from = self.clusters@[from.0 as int];
            assert(new_from.indices@ == old_from.indices@);
            assert(new_from.cells(w) =~= old_from.cells(w));
            assert(old_from.wf(w, h));
            assert(new_from.wf(w, h));
            assert forall|c: int| 0 <= c < self.clusters@.len() && c != from.0 implies #[trigger] self.clusters@[c]
                == mid.clusters@[c] by {}
            assert forall|c: int| 0 <= c < self.clusters@.len() implies (#[trigger] self.clusters@[c]).wf(
                w,
                h,
            ) by {
                if c != from.0 {
                    assert(mid.clusters@[c].wf(w, h));
                }
            }
            assert(labels_consistent(self.clusters@, grid)) by {
                assert forall|p: int| 0 <= p < grid.len() && (#[trigger] grid[p]).0 != 0 implies grid[p].0
                    < self.clusters@.len() && self.clusters@[grid[p].0 as int].indices@.contains(
                    p as u32,
                ) by {
                    let l = grid[p].0 as int;
                    assert(mid.clusters@[l].indices@.contains(p as u32));
                    assert(l != from.0);
                }
            }
            assert(owns_none(self.clusters@, grid, from.0 as int)) by {
                assert forall|k: int| 0 <= k < new_from.indices@.len() implies grid[(
                #[trigger] new_from.indices@[k]) as int].0 != from.0 by {
                    let q = old_from.indices@[k];
                    assert(old_from.indices@.contains(q));
                    assert(q < w * h);
                    assert(grid[q as int] == to);
                }
            }
            assert forall|c: int| 0 <= c < self.clusters@.len() && c != from.0 implies (owns(
                mid.clusters@,
                grid,
                c,
            ) ==> owns(self.clusters@, grid, c)) && (owns_none(mid.clusters@, grid, c)
                ==> owns_none(self.clusters@, grid, c)) by {
                assert(self.clusters@[c] == mid.clusters@[c]);
            }
            assert forall|c: int| 0 <= c < self.clusters@.len() implies #[trigger] owns(
                self.clusters@,
                grid,
                c,
            ) || owns_none(self.clusters@, grid, c) by {
                if c != from.0 {
                    assert(owns(mid.clusters@, grid, c) || owns_none(mid.clusters@, grid, c));
                }
            }
            assert forall|c: int, k: int|
                0 <= c < self.clusters@.len() && 0 <= k < self.clusters@[c].indices@.len() implies (
            #[trigger] self.clusters@[c].indices@[k]) < self.scanned() by {
                if c == from.0 {
                    assert(old(self).clusters@[c].indices@[k] < old(self).scanned());
                } else {
                    assert(mid.clusters@[c].indices@[k] < mid.scanned());
                }
            }
            assert forall|c: int| self.next_index.0 <= c < self.clusters@.len() implies (
            #[trigger] self.clusters@[c]).indices@.len() == 0 by {
                if c != from.0 {
                    assert(mid.clusters@[c].indices@.len() == 0);
                } else {
                    assert(old(self).clusters@[c].indices@.len() == 0);
                }
            }
            assert(state_wf(self.clusters@, grid, w, h));
            assert(self.inv());
            assert forall|c: int|
                0 <= c < old(self).clusters@.len() && c != from.0 && #[trigger] owns(
                    old(self).clusters@,
                    old(self).cluster_indices@,
                    c,
                ) implies owns(self.clusters@, grid, c) by {
                assert(owns(mid.clusters@, grid, c));
            }
        }
    }

    /// Merges cluster `from` into cluster `to`.
    ///
    /// Without `deepen`, the pixels, the colour sum, the residue sum, the
    /// rect and the labels move to the target, and the source records the
    /// target as the cluster it was merged into. With `deepen`, the target
    /// receives the same but the source keeps its own pixels, sum and
    /// rect, and the target's depth goes up by one; with `hollow` as well,
    /// the source's pixels are appended to the target's holes and the
    /// target's number of holes goes up by one.
    pub fn merge_cluster_into(&mut self, from: ClusterIndex, to: ClusterIndex, deepen: bool, hollow: bool)
        requires
            old(self).inv(),
            old(self).stage != 1,
            from != to,
            from.0 < old(self).clusters@.len(),
            to.0 < old(self).clusters@.len(),
            owns(old(self).clusters@, old(self).cluster_indices@, from.0 as int),
            owns(old(self).clusters@, old(self).cluster_indices@, to.0 as int),
            old(self).clusters@[from.0 as int].indices@.len() > 0,
            old(self).clusters@[to.0 as int].indices@.len() > 0,
        ensures
            final(self).inv(),
            final(self).same_frame(old(self)),
            grew_or_merged(old(self).clusters@, final(self).clusters@),
            forall|c: int|
                0 <= c < old(self).clusters@.len() && c != from.0 && c != to.0 ==> #[trigger] final(self).clusters@[c] == old(self).clusters@[c],
            final(self).clusters@[to.0 as int].indices@ == old(self).clusters@[to.0 as int].indices@
                + old(self).clusters@[from.0 as int].indices@,
            final(self).clusters@[to.0 as int].merged_into == old(self).clusters@[to.0 as int].merged_into,
            final(self).clusters@[to.0 as int].sum == old(self).clusters@[to.0 as int].sum.spec_merge(
                old(self).clusters@[from.0 as int].sum,
            ),
            final(self).clusters@[from.0 as int].sum == (if deepen {
                old(self).clusters@[from.0 as int].sum
            } else {
                ColorSum::spec_zero()
            }),
            forall|p: int|
                0 <= p < old(self).n() ==> #[trigger] final(self).cluster_indices@[p] == (if old(self).clusters@[from.0 as int].indices@.contains(p as u32) {
                    to
                } else {
                    old(self).cluster_indices@[p]
                }),
            final(self).clusters@[to.0 as int].depth == old(self).clusters@[to.0 as int].depth + (
            if deepen {
                1int
            } else {
                0int
            }),
            final(self).clusters@[to.0 as int].num_holes == old(self).clusters@[to.0 as int].num_holes
                + (if deepen && hollow {
                1int
            } else {
                0int
            }),
            final(self).clusters@[to.0 as int].holes@ == (if deepen && hollow {
                old(self).clusters@[to.0 as int].holes@ + old(self).clusters@[from.0 as int].indices@
            } else {
                old(self).clusters@[to.0 as int].holes@
            }),
            final(self).clusters@[to.0 as int].residue_sum == (if deepen {
                old(self).clusters@[to.0 as int].residue_sum
            } else {
                old(self).clusters@[to.0 as int].residue_sum.spec_merge(
                    old(self).clusters@[from.0 as int].residue_sum,
                )
            }),
            final(self).clusters@[from.0 as int].indices@ == (if deepen {
                old(self).clusters@[from.0 as int].indices@
            } else {
                Seq::<u32>::empty()
            }),
            final(self).clusters@[from.0 as int].merged_into == (if deepen {
                old(self).clusters@[from.0 as int].merged_into
            } else {
                to
            }),
            owns(final(self).clusters@, final(self).cluster_indices@, to.0 as int),
            forall|c: int|
                0 <= c < old(self).clusters@.len() && c != from.0 && #[trigger] owns(
                    old(self).clusters@,
                    old(self).cluster_indices@,
                    c,
                ) ==> owns(final(self).clusters@, final(self).cluster_indices@, c),
    {
        let ghost w = self.width as int;
        let ghost h = self.height as int;
        let ghost old_from = old(self).clusters@[from.0 as int];
        let ghost old_to = old(self).clusters@[to.0 as int];
        proof {
            assert(old_from.wf(w, h) && old_to.wf(w, h));
            // an owned non-empty cluster lies below the next free label
            if to.0 >= self.next_index.0 {
                assert(self.clusters@[to.0 as int].indices@.len() == 0);
            }
            assert forall|a: int, b: int|
                0 <= a < old_to.indices@.len() && 0 <= b < old_from.indices@.len() implies old_to.indices@[a]
                != old_from.indices@[b] by {
                assert(self.cluster_indices@[old_to.indices@[a] as int].0 == to.0);
                assert(self.cluster_indices@[old_from.indices@[b] as int].0 == from.0);
            }
            vstd::seq_lib::lemma_no_dup_in_concat(old_to.indices@, old_from.indices@);
            lemma_distinct_len(old_to.indices@ + old_from.indices@, w * h);
            assert(255 * (old_to.indices@.len() + old_from.indices@.len()) <= u32::MAX)
                by (nonlinear_arith)
                requires
                    old_to.indices@.len() + old_from.indices@.len() <= w * h,
                    255 * (w * h) <= u32::MAX,
            ;
        }
        if !deepen {
            let residue_sum = self.clusters[from.0 as usize].residue_sum;
            self.combine_clusters(from, to);
            let ghost mid = *self;
            self.clusters[to.0 as usize].residue_sum.merge(&residue_sum);
            self.clusters[from.0 as usize].merged_into = to;
            proof {
                assert forall|c: int| 0 <= c < self.clusters@.len() implies (#[trigger] self.clusters@[c]).indices@
                    == mid.clusters@[c].indices@ && self.clusters@[c].wf(w, h) by {
                    assert(mid.clusters@[c].wf(w, h));
                    if c == to.0 {
                        assert(self.clusters@[c].cells(w) =~= mid.clusters@[c].cells(w));
                    } else if c == from.0 {
                        assert(self.clusters@[c].cells(w) =~= mid.clusters@[c].cells(w));
                    } else {
                        assert(self.clusters@[c] == mid.clusters@[c]);
                    }
                }
                self.lemma_inv_after_extras(&mid);
                assert forall|c: int|
                    0 <= c < old(self).clusters@.len() && c != from.0 && c != to.0 implies #[trigger] self.clusters@[c]
                    == old(self).clusters@[c] by {
                    assert(self.clusters@[c] == mid.clusters@[c]);
                }
                assert(owns(self.clusters@, self.cluster_indices@, to.0 as int)) by {
                    assert(owns(mid.clusters@, mid.cluster_indices@, to.0 as int));
                    assert forall|k: int|
                        0 <= k < self.clusters@[to.0 as int].indices@.len() implies self.cluster_indices@[(
                    #[trigger] self.clusters@[to.0 as int].indices@[k]) as int].0 == to.0 by {
                        assert(mid.cluster_indices@[mid.clusters@[to.0 as int].indices@[k] as int].0
                            == to.0);
                    }
                }
                assert forall|c: int|
                    0 <= c < old(self).clusters@.len() && c != from.0 && #[trigger] owns(
                        old(self).clusters@,
                        old(self).cluster_indices@,
                        c,
                    ) implies owns(self.clusters@, self.cluster_indices@, c) by {
                    assert(owns(mid.clusters@, mid.cluster_indices@, c));
                    assert forall|k: int|
                        0 <= k < self.clusters@[c].indices@.len() implies self.cluster_indices@[(
                    #[trigger] self.clusters@[c].indices@[k]) as int].0 == c by {
                        assert(mid.cluster_indices@[mid.clusters@[c].indices@[k] as int].0 == c);
                    }
                }
                assert(self.clusters@[from.0 as int].indices@ =~= Seq::<u32>::empty());
            }
        } else {
            self.combine_clusters_clone(from, to);
            let ghost mid = *self;
            if hollow {
                let mut holes = self.clusters[from.0 as usize].indices.clone();
                assert(holes@ =~= old_from.indices@);
                self.clusters[to.0 as usize].holes.append(&mut holes);
                self.clusters[to.0 as usize].num_holes += 1;
            }
            self.clusters[to.0 as usize].depth += 1;
            proof {
                let new_to = self.clusters@[to.0 as int];
                let mid_to = mid.clusters@[to.0 as int];
                assert forall|c: int| 0 <= c < self.clusters@.len() implies (#[trigger] self.clusters@[c]).indices@
                    == mid.clusters@[c].indices@ && self.clusters@[c].wf(w, h) by {
                    assert(mid.clusters@[c].wf(w, h));
                    if c == to.0 {
                        assert(new_to.cells(w) =~= mid_to.cells(w));
                        assert forall|k: int| 0 <= k < new_to.holes@.len() implies new_to.indices@.contains(
                            #[trigger] new_to.holes@[k],
                        ) by {
                            if k < old_to.holes@.len() {
                                assert(new_to.holes@[k] == mid_to.holes@[k]);
                                assert(mid_to.indices@.contains(mid_to.holes@[k]));
                            } else {
                                let k2 = k - old_to.holes@.len();
                                assert(new_to.holes@[k] == old_from.indices@[k2]);
                                assert(new_to.indices@[old_to.indices@.len() + k2]
                                    == old_from.indices@[k2]);
                            }
                        }
                    } else {
                        assert(self.clusters@[c] == mid.clusters@[c]);
                    }
                }
                self.lemma_inv_after_extras(&mid);
                assert forall|c: int|
                    0 <= c < old(self).clusters@.len() && c != from.0 && c != to.0 implies #[trigger] self.clusters@[c]
                    == old(self).clusters@[c] by {
                    assert(self.clusters@[c] == mid.clusters@[c]);
                }
                assert(owns(self.clusters@, self.cluster_indices@, to.0 as int)) by {
                    assert(owns(mid.clusters@, mid.cluster_indices@, to.0 as int));
                    assert forall|k: int|
                        0 <= k < self.clusters@[to.0 as int].indices@.len() implies self.cluster_indices@[(
                    #[trigger] self.clusters@[to.0 as int].indices@[k]) as int].0 == to.0 by {
                        assert(mid.cluster_indices@[mid.clusters@[to.0 as int].indices@[k] as int].0
                            == to.0);
                    }
                }
                assert forall|c: int|
                    0 <= c < old(self).clusters@.len() && c != from.0 && #[trigger] owns(
                        old(self).clusters@,
                        old(self).cluster_indices@,
                        c,
                    ) implies owns(self.clusters@, self.cluster_indices@, c) by {
                    assert(owns(mid.clusters@, mid.cluster_indices@, c));
                    assert forall|k: int|
                        0 <= k < self.clusters@[c].indices@.len() implies self.cluster_indices@[(
                    #[trigger] self.clusters@[c].indices@[k]) as int].0 == c by {
                        assert(mid.cluster_indices@[mid.clusters@[c].indices@[k] as int].0 == c);
                    }
                }
            }
        }
    }

    /// In the first stage a cluster has fewer pixels than were scanned.
    proof fn lemma_area_below_scanned(&self, c: int)
        requires
            self.inv(),
            0 <= c < self.clusters@.len(),
        ensures
            self.clusters@[c].indices@.len() <= self.scanned(),
            self.clusters@[c].sum.counter <= self.scanned(),
            255 * (self.scanned() + 1) <= u32::MAX || self.scanned() == self.n(),
    {
        let s = self.clusters@[c].indices@;
        assert(self.clusters@[c].wf(self.width as int, self.height as int));
        assert forall|k: int| 0 <= k < s.len() implies (#[trigger] s[k]) < self.scanned() by {
            assert(self.clusters@[c].indices@[k] < self.scanned());
        }
        lemma_distinct_len(s, self.scanned());
    }

    /// Labels the pixel of index `i` with `c` and adds it to that cluster.
    fn attach(&mut self, i: u32, c: ClusterIndex, color: Color)
        requires
            old(self).inv(),
            old(self).stage == 1,
            old(self).iteration == i,
            i < old(self).n(),
            c.0 < old(self).next_index.0,
        ensures
            final(self).inv(),
            final(self).same_config(old(self)),
            final(self).stage == 1,
            final(self).iteration == i + 1,
            final(self).clusters_output@ == old(self).clusters_output@,
            final(self).cluster_areas@ == old(self).cluster_areas@,
            final(self).attached(old(self), i as int, c, color),
    {
        let ghost w = self.width as int;
        let ghost h = self.height as int;
        let ghost old_c = old(self).clusters@[c.0 as int];
        proof {
            assert(w > 0) by (nonlinear_arith)
                requires
                    0 <= i < w * h,
                    0 <= w,
                    0 <= h,
            ;
            lemma_index_to_cell(i as int, w, h);
            self.lemma_area_below_scanned(c.0 as int);
            assert(old_c.wf(w, h));
            assert(255 * (old_c.indices@.len() + 1) <= u32::MAX) by (nonlinear_arith)
                requires
                    old_c.indices@.len() <= i,
                    i < w * h,
                    255 * (w * h) <= u32::MAX,
            ;
        }
        let x: u32 = i % self.width;
        let y: u32 = i / self.width;
        self.cluster_indices.set(i as usize, c);
        self.clusters[c.0 as usize].add(i, &color, x as i32, y as i32);
        self.iteration = i + 1;
        proof {
            let grid = self.cluster_indices@;
            let old_grid = old(self).cluster_indices@;
            let new_c = self.clusters@[c.0 as int];
            assert(new_c.indices@ == old_c.indices@.push(i));
            assert forall|d: int| 0 <= d < self.clusters@.len() && d != c.0 implies #[trigger] self.clusters@[d]
                == old(self).clusters@[d] by {}
            old_c.rect.lemma_add_keeps_aabb(old_c.cells(w), x as int, y as int);
            assert(new_c.cells(w) =~= old_c.cells(w).push((x as int, y as int)));
            assert(new_c.wf(w, h)) by {
                assert forall|a: int, b: int|
                    0 <= a < new_c.indices@.len() && 0 <= b < new_c.indices@.len() && a
                        != b implies new_c.indices@[a] != new_c.indices@[b] by {
                    let last = old_c.indices@.len() as int;
                    if a < last && b < last {
                        assert(old_c.indices@.no_duplicates());
                    } else {
                        let t = if a < last {
                            a
                        } else {
                            b
                        };
                        assert(old(self).clusters@[c.0 as int].indices@[t] < i);
                    }
                }
                assert forall|k: int| 0 <= k < new_c.indices@.len() implies (#[trigger] new_c.indices@[k])
                    < w * h by {
                    if k < old_c.indices@.len() {
                        assert(new_c.indices@[k] == old_c.indices@[k]);
                    }
                }
                assert(old_c.extras_blank()) by {
                    assert(owns(old(self).clusters@, old_grid, c.0 as int));
                }
            }
            assert forall|d: int| 0 <= d < self.clusters@.len() implies (#[trigger] self.clusters@[d]).wf(
                w,
                h,
            ) by {
                if d != c.0 {
                    assert(old(self).clusters@[d].wf(w, h));
                }
            }
            assert(labels_consistent(self.clusters@, grid)) by {
                assert forall|p: int| 0 <= p < grid.len() && (#[trigger] grid[p]).0 != 0 implies grid[p].0
                    < self.clusters@.len() && self.clusters@[grid[p].0 as int].indices@.contains(
                    p as u32,
                ) by {
                    if p == i {
                        assert(new_c.indices@[old_c.indices@.len() as int] == i);
                    } else {
                        let l = old_grid[p].0 as int;
                        assert(old(self).clusters@[l].indices@.contains(p as u32));
                        if l == c.0 {
                            let a = choose|a: int|
                                0 <= a < old_c.indices@.len() && old_c.indices@[a] == p as u32;
                            assert(new_c.indices@[a] == p as u32);
                        }
                    }
                }
            }
            assert forall|d: int| 0 <= d < self.clusters@.len() implies #[trigger] owns(
                self.clusters@,
                grid,
                d,
            ) && self.clusters@[d].extras_blank() by {
                assert(owns(old(self).clusters@, old_grid, d));
                assert forall|k: int| 0 <= k < self.clusters@[d].indices@.len() implies grid[(
                #[trigger] self.clusters@[d].indices@[k]) as int].0 == d by {
                    if d == c.0 && k == old_c.indices@.len() {
                    } else {
                        let q = old(self).clusters@[d].indices@[k];
                        assert(q < i);
                        assert(old_grid[q as int].0 == d);
                    }
                }
            }
            assert forall|d: int, k: int|
                0 <= d < self.clusters@.len() && 0 <= k < self.clusters@[d].indices@.len() implies (
            #[trigger] self.clusters@[d].indices@[k]) < self.scanned() by {
                if d == c.0 && k == old_c.indices@.len() {
                } else {
                    assert(old(self).clusters@[d].indices@[k] < i);
                }
            }
            assert forall|d: int| self.next_index.0 <= d < self.clusters@.len() implies (
            #[trigger] self.clusters@[d]).indices@.len() == 0 by {
                assert(old(self).clusters@[d].indices@.len() == 0);
            }
            assert(state_wf(self.clusters@, grid, w, h));
            assert(self.zero_held()) by {
                assert forall|p: int|
                    0 <= p < self.scanned() && (#[trigger] grid[p]).0 == 0 && !(self.keyed(p)
                        && self.keying_action is Discard) implies self.clusters@[0].indices@.contains(
                    p as u32,
                ) by {
                    assert(self.keyed(p) == old(self).keyed(p));
                    if p == i {
                        assert(new_c.indices@[old_c.indices@.len() as int] == i);
                    } else {
                        assert(old_grid[p].0 == 0);
                        let held = old(self).clusters@[0].indices@;
                        assert(held.contains(p as u32));
                        let k = choose|k: int| 0 <= k < held.len() && held[k] == p as u32;
                        if c.0 == 0 {
                            assert(new_c.indices@[k] == p as u32);
                        } else {
                            assert(self.clusters@[0] == old(self).clusters@[0]);
                        }
                    }
                }
            }
            assert(self.inv());
        }
    }

    /// Starts a new cluster with the pixel of index `i`, under the next
    /// free label. The new cluster is its own `merged_into`.
    fn attach_new(&mut self, i: u32, color: Color)
        requires
            old(self).inv(),
            old(self).stage == 1,
            old(self).iteration == i,
            i < old(self).n(),
        ensures
            final(self).inv(),
            final(self).same_config(old(self)),
            final(self).stage == 1,
            final(self).iteration == i + 1,
            final(self).clusters_output@ == old(self).clusters_output@,
            final(self).cluster_areas@ == old(self).cluster_areas@,
            final(self).attached_new(old(self), i as int, color),
    {
        let ghost w = self.width as int;
        let ghost h = self.height as int;
        proof {
            assert(w > 0) by (nonlinear_arith)
                requires
                    0 <= i < w * h,
                    0 <= w,
                    0 <= h,
            ;
            lemma_index_to_cell(i as int, w, h);
        }
        let x: u32 = i % self.width;
        let y: u32 = i / self.width;
        let label = self.next_index;
        let mut new_cluster = Cluster::new();
        new_cluster.add(i, &color, x as i32, y as i32);
        new_cluster.merged_into = label;
        proof {
            crate::bound::BoundingRect::spec_zero().lemma_add_keeps_aabb(
                Seq::<(int, int)>::empty(),
                x as int,
                y as int,
            );
            assert(new_cluster.indices@ =~= seq![i]);
            assert(new_cluster.cells(w) =~= Seq::<(int, int)>::empty().push((x as int, y as int)));
            assert(new_cluster.wf(w, h));
        }
        if (label.0 as usize) < self.clusters.len() {
            self.clusters[label.0 as usize] = new_cluster;
        } else {
            self.clusters.push(new_cluster);
        }
        self.cluster_indices.set(i as usize, label);
        self.next_index = ClusterIndex(label.0 + 1);
        self.iteration = i + 1;
        proof {
            let grid = self.cluster_indices@;
            let old_grid = old(self).cluster_indices@;
            let new_c = self.clusters@[label.0 as int];
            assert forall|d: int| 0 <= d < old(self).clusters@.len() && d != label.0 implies #[trigger] self.clusters@[d]
                == old(self).clusters@[d] by {}
            assert forall|d: int| 0 <= d < self.clusters@.len() implies (#[trigger] self.clusters@[d]).wf(
                w,
                h,
            ) by {
                if d != label.0 {
                    assert(old(self).clusters@[d].wf(w, h));
                }
            }
            assert(labels_consistent(self.clusters@, grid)) by {
                assert forall|p: int| 0 <= p < grid.len() && (#[trigger] grid[p]).0 != 0 implies grid[p].0
                    < self.clusters@.len() && self.clusters@[grid[p].0 as int].indices@.contains(
                    p as u32,
                ) by {
                    if p == i {
                        assert(new_c.indices@[0] == i);
                    } else {
                        let l = old_grid[p].0 as int;
                        assert(old(self).clusters@[l].indices@.contains(p as u32));
                        assert(old(self).clusters@[l].indices@.len() > 0);
                        assert(l != label.0);
                    }
                }
            }
            assert forall|d: int| 0 <= d < self.clusters@.len() implies #[trigger] owns(
                self.clusters@,
                grid,
                d,
            ) && self.clusters@[d].extras_blank() by {
                if d != label.0 {
                    assert(owns(old(self).clusters@, old_grid, d));
                    assert forall|k: int| 0 <= k < self.clusters@[d].indices@.len() implies grid[(
                    #[trigger] self.clusters@[d].indices@[k]) as int].0 == d by {
                        let q = old(self).clusters@[d].indices@[k];
                        assert(q < i);
                        assert(old_grid[q as int].0 == d);
                    }
                }
            }
            assert forall|d: int, k: int|
                0 <= d < self.clusters@.len() && 0 <= k < self.clusters@[d].indices@.len() implies (
            #[trigger] self.clusters@[d].indices@[k]) < self.scanned() by {
                if d != label.0 {
                    assert(old(self).clusters@[d].indices@[k] < i);
                }
            }
            assert(state_wf(self.clusters@, grid, w, h));
            assert(self.inv());
        }
    }

    /// Scans the pixel of index `i`: joins the clusters of the pixel above
    /// and the pixel to the left where the predicates say so, then labels
    /// the pixel.
    ///
    /// The two clusters are joined when their labels differ and the two
    /// pixels are the same to the predicates, and, unless `diagonal` is
    /// set, this pixel is the same as both; the one with fewer pixels goes
    /// into the other, and with as many the left one into the upper one.
    /// A pixel of the key colour goes to cluster 0 or, when keyed pixels
    /// are discarded, to no cluster. Any other pixel takes the label of
    /// the pixel above if it is the same as that, else of the pixel to the
    /// left, else, with `diagonal`, of the pixel above left, and else
    /// starts a cluster of its own.
    fn scan_pixel(&mut self, i: u32)
        requires
            old(self).inv(),
            old(self).stage == 1,
            old(self).iteration == i,
            i < old(self).n(),
        ensures
            final(self).inv(),
            final(self).same_config(old(self)),
            final(self).stage == 1,
            final(self).iteration == i + 1,
            final(self).clusters_output@ == old(self).clusters_output@,
            final(self).cluster_areas@ == old(self).cluster_areas@,
            final(self).scanned_one(old(self), i as int),
    {
        let ghost w = self.width as int;
        let ghost h = self.height as int;
        let (cluster_up, cluster_left) = self.join_at(i);
        let ghost mid = *self;
        proof {
            assert(w > 0) by (nonlinear_arith)
                requires
                    0 <= i < w * h,
                    0 <= w,
                    0 <= h,
            ;
            lemma_index_to_cell(i as int, w, h);
            assert(w * h <= u32::MAX);
            self.lemma_row_of(i as int);
        }
        let diagonal = self.diagonal;
        let key = self.key;
        let has_key = !(key.r == 0 && key.g == 0 && key.b == 0 && key.a == 0);
        let x: i32 = (i % self.width) as i32;
        let y: i32 = (i / self.width) as i32;
        let color = self.pixel_at(x, y);
        let up = self.pixel_at(x, y - 1);
        let left = self.pixel_at(x - 1, y);
        let upleft = self.pixel_at(x - 1, y - 1);
        proof {
            crate::grid::lemma_cell_index_bound(x as int, y as int, w, h);
            if x > 0 && y > 0 {
                crate::grid::lemma_cell_index_bound(x - 1, y - 1, w, h);
            }
            assert(w * (y - 1) == (y - 1) * w) by (nonlinear_arith);
            assert(w * y == y * w) by (nonlinear_arith);
            assert(x == i as int % w && y == i as int / w);
            assert(y * w + x == i);
            assert(y * w + (x - 1) == i - 1);
            assert((y - 1) * w + x == i - w) by (nonlinear_arith)
                requires
                    y * w + x == i,
            ;
            assert((y - 1) * w + (x - 1) == i - w - 1) by (nonlinear_arith)
                requires
                    y * w + x == i,
            ;
            assert((y > 0) == (i >= w));
            assert((x > 0) == (i as int % w > 0));
            assert(self.view_pixel(i as int) == old(self).view_pixel(i as int));
        }
        let c = color.unwrap();
        if has_key && c.r == key.r && c.g == key.g && c.b == key.b && c.a == key.a {
            match self.keying_action {
                KeyingAction::Keep => {
                    self.attach(i, ClusterIndex(0), c);
                },
                KeyingAction::Discard => {
                    self.iteration = i + 1;
                    proof {
                        assert forall|d: int| 0 <= d < self.clusters@.len() implies #[trigger] owns(
                            self.clusters@,
                            self.cluster_indices@,
                            d,
                        ) && self.clusters@[d].extras_blank() by {
                            assert(owns(mid.clusters@, mid.cluster_indices@, d));
                        }
                        assert forall|d: int, k: int|
                            0 <= d < self.clusters@.len() && 0 <= k
                                < self.clusters@[d].indices@.len() implies (
                        #[trigger] self.clusters@[d].indices@[k]) < self.scanned() by {
                            assert(mid.clusters@[d].indices@[k] < mid.scanned());
                        }
                        assert(state_wf(
                            self.clusters@,
                            self.cluster_indices@,
                            self.width as int,
                            self.height as int,
                        ));
                        assert(self.outputs_valid());
                        assert(self.free_labels_empty());
                        assert(self.indices_scanned());
                        assert(self.unscanned_unlabelled());
                        assert(self.first_stage_plain());
                        assert(self.second_stage_bins());
                        assert(self.inv());
                    }
                },
            }
        } else if self.is_same(color, up) {
            self.attach(i, cluster_up, c);
        } else if self.is_same(color, left) {
            self.attach(i, cluster_left, c);
        } else if diagonal && self.is_same(color, upleft) {
            // the label is read now: a merge above may have changed it
            let cluster_upleft = self.cluster_indices[(self.width as i32 * (y - 1) + (x - 1)) as usize];
            proof {
                self.lemma_label_below_next(cluster_upleft);
            }
            self.attach(i, cluster_upleft, c);
        } else {
            self.attach_new(i, c);
        }
        proof {
            assert(self.labelled(&mid, old(self), i as int));
        }
    }

    /// The pixel of index `i` lies in a row below the first if and only
    /// if the index is no less than the width.
    proof fn lemma_row_of(&self, i: int)
        requires
            0 <= i,
            0 < self.width,
        ensures
            (i / (self.width as int) > 0) == (i >= self.width),
            i == (i / (self.width as int)) * self.width + i % (self.width as int),
            0 <= i % (self.width as int) < self.width,
    {
        let w = self.width as int;
        vstd::arithmetic::div_mod::lemma_fundamental_div_mod(i, w);
        vstd::arithmetic::div_mod::lemma_mod_pos_bound(i, w);
        assert(w * (i / w) == (i / w) * w) by (nonlinear_arith);
        assert((i / w > 0) == (i >= w)) by (nonlinear_arith)
            requires
                i == (i / w) * w + i % w,
                0 <= i % w < w,
                0 <= i,
        ;
    }

    /// Joins the clusters of the pixel above and the pixel to the left of
    /// the pixel of index `i` where the predicates say so, and returns
    /// the labels that the two pixels count as labelled with.
    fn join_at(&mut self, i: u32) -> (labels: (ClusterIndex, ClusterIndex))
        requires
            old(self).inv(),
            old(self).stage == 1,
            old(self).iteration == i,
            i < old(self).n(),
        ensures
            final(self).inv(),
            final(self).same_config(old(self)),
            final(self).stage == 1,
            final(self).iteration == i,
            final(self).clusters_output@ == old(self).clusters_output@,
            final(self).cluster_areas@ == old(self).cluster_areas@,
            final(self).joined(old(self), i as int),
            labels.0 == old(self).label_after_join(i as int, old(self).up_label(i as int)),
            labels.1 == old(self).label_after_join(i as int, old(self).left_label(i as int)),
            labels.0.0 < final(self).next_index.0,
            labels.1.0 < final(self).next_index.0,
    {
        let ghost w = self.width as int;
        let ghost h = self.height as int;
        proof {
            assert(w > 0) by (nonlinear_arith)
                requires
                    0 <= i < w * h,
                    0 <= w,
                    0 <= h,
            ;
            lemma_index_to_cell(i as int, w, h);
            assert(w * h <= u32::MAX);
            self.lemma_row_of(i as int);
        }
        let diagonal = self.diagonal;
        let x: i32 = (i % self.width) as i32;
        let y: i32 = (i / self.width) as i32;
        let color = self.pixel_at(x, y);
        let up = self.pixel_at(x, y - 1);
        let left = self.pixel_at(x - 1, y);
        proof {
            crate::grid::lemma_cell_index_bound(x as int, y as int, w, h);
            if y > 0 {
                crate::grid::lemma_cell_index_bound(x as int, y - 1, w, h);
            }
            if x > 0 {
                crate::grid::lemma_cell_index_bound(x - 1, y as int, w, h);
            }
            assert(w * (y - 1) == (y - 1) * w) by (nonlinear_arith);
            assert(w * y == y * w) by (nonlinear_arith);
            assert(x == i as int % w && y == i as int / w);
            assert(y * w + x == i);
            assert(y * w + (x - 1) == i - 1);
            assert((y - 1) * w + x == i - w) by (nonlinear_arith)
                requires
                    y * w + x == i,
            ;
            assert((y - 1) * w + (x - 1) == i - w - 1) by (nonlinear_arith)
                requires
                    y * w + x == i,
            ;
            assert((y > 0) == (i >= w));
            assert((x > 0) == (i as int % w > 0));
        }
        let mut cluster_up = if y > 0 {
            self.cluster_indices[(self.width as i32 * (y - 1) + x) as usize]
        } else {
            ClusterIndex(0)
        };
        let mut cluster_left = if x > 0 {
            self.cluster_indices[(self.width as i32 * y + (x - 1)) as usize]
        } else {
            ClusterIndex(0)
        };
        proof {
            self.lemma_label_below_next(cluster_up);
            self.lemma_label_below_next(cluster_left);
            assert(cluster_up == self.up_label(i as int));
            assert(cluster_left == self.left_label(i as int));
        }
        if cluster_left.0 != cluster_up.0 && self.is_same(left, up) && (diagonal || (self.is_same(
            color,
            left,
        ) && self.is_same(color, up))) {
            proof {
                assert(self.joins(i as int));
                assert(owns(self.clusters@, self.cluster_indices@, cluster_left.0 as int));
                assert(owns(self.clusters@, self.cluster_indices@, cluster_up.0 as int));
                assert(self.clusters@[cluster_left.0 as int].extras_blank());
                assert(self.clusters@[cluster_up.0 as int].extras_blank());
            }
            if self.clusters[cluster_left.0 as usize].area() <= self.clusters[cluster_up.0 as usize].area() {
                self.combine_clusters(cluster_left, cluster_up);
                if cluster_left.0 == self.next_index.0 - 1 && self.next_index.0 as usize
                    == self.clusters.len() {
                    // the last label is free again
                    self.next_index = ClusterIndex(self.next_index.0 - 1);
                }
                cluster_left = cluster_up;
            } else {
                self.combine_clusters(cluster_up, cluster_left);
                cluster_up = cluster_left;
            }
        } else {
            proof {
                assert(!self.joins(i as int));
            }
        }
        (cluster_up, cluster_left)
    }

    /// A label found in the grid lies below the next free label.
    proof fn lemma_label_below_next(&self, l: ClusterIndex)
        requires
            self.inv(),
            l.0 == 0 || exists|p: int|
                0 <= p < self.n() && self.cluster_indices@[p] == l,
        ensures
            l.0 < self.next_index.0,
            l.0 < self.clusters@.len(),
    {
        if l.0 != 0 {
            let p = choose|p: int| 0 <= p < self.n() && self.cluster_indices@[p] == l;
            assert(self.cluster_indices@[p].0 != 0);
            assert(self.clusters@[l.0 as int].indices@.contains(p as u32));
            if l.0 >= self.next_index.0 {
                assert(self.clusters@[l.0 as int].indices@.len() == 0);
            }
        }
    }

    /// Scans up to `batch_size` pixels; `true` once every pixel is scanned.
    fn stage_1(&mut self) -> (done: bool)
        requires
            old(self).inv(),
            old(self).stage == 1,
        ensures
            final(self).inv(),
            final(self).same_config(old(self)),
            final(self).stage == 1,
            final(self).clusters_output@ == old(self).clusters_output@,
            final(self).cluster_areas@ == old(self).cluster_areas@,
            final(self).iteration == (if old(self).iteration + old(self).batch_size <= old(self).n() {
                old(self).iteration + old(self).batch_size
            } else {
                old(self).n()
            }),
            done == (final(self).iteration == final(self).n()),
            final(self).scanned_upto(
                old(self),
                old(self).iteration as int,
                final(self).iteration as int,
            ),
    {
        let len = self.cluster_indices.len();
        let batch_size = self.batch_size;
        let mut count: u32 = 0;
        proof {
            assert(len <= u32::MAX);
        }
        while count < batch_size && (self.iteration as usize) < len
            invariant
                self.inv(),
                self.same_config(old(self)),
                self.stage == 1,
                len == self.n(),
                batch_size == old(self).batch_size,
                count <= batch_size,
                self.iteration == old(self).iteration + count,
                self.clusters_output@ == old(self).clusters_output@,
                self.cluster_areas@ == old(self).cluster_areas@,
                self.scanned_upto(old(self), old(self).iteration as int, self.iteration as int),
            decreases len - self.iteration,
        {
            let i = self.iteration;
            let ghost mid = *self;
            self.scan_pixel(i);
            proof {
                assert(mid.same_config(old(self)) && mid.scanned_upto(
                    old(self),
                    old(self).iteration as int,
                    i as int,
                ) && self.scanned_one(&mid, i as int));
            }
            count += 1;
        }
        self.iteration as usize >= len
    }

    /// Something other than the clusters and the labels changed, in a way
    /// that keeps the histogram in order: the state stays sound.
    proof fn lemma_inv_after_bookkeeping(&self, before: &Self)
        requires
            before.inv(),
            self.same_setup(before),
            self.next_index == before.next_index,
            self.cluster_indices@ == before.cluster_indices@,
            self.clusters@ == before.clusters@,
            forall|o: int|
                0 <= o < self.clusters_output@.len() ==> (#[trigger] self.clusters_output@[o]).0
                    < self.clusters@.len(),
            self.stage == 2 ==> bins_sorted(self.cluster_areas@) && bins_within(
                self.cluster_areas@,
                self.n(),
            ) && self.iteration <= self.cluster_areas@.len(),
        ensures
            self.inv(),
    {
    }

    /// Ends the first stage: every cluster's residue sum becomes its sum,
    /// and the histogram of the areas of the non-empty clusters other than
    /// cluster 0 is built.
    fn prepare_stage_2(&mut self)
        requires
            old(self).inv(),
            old(self).stage == 1,
            old(self).iteration == old(self).n(),
        ensures
            final(self).inv(),
            final(self).same_config(old(self)),
            final(self).stage == 2,
            final(self).iteration == 0,
            final(self).clusters_output@ == old(self).clusters_output@,
            final(self).cluster_indices@ == old(self).cluster_indices@,
            final(self).clusters@.len() == old(self).clusters@.len(),
            forall|c: int|
                0 <= c < old(self).clusters@.len() ==> (#[trigger] final(self).clusters@[c]).indices@
                    == old(self).clusters@[c].indices@ && final(self).clusters@[c].sum == old(self).clusters@[c].sum && final(self).clusters@[c].rect == old(self).clusters@[c].rect
                    && final(self).clusters@[c].residue_sum == old(self).clusters@[c].sum && final(self).clusters@[c].merged_into == old(self).clusters@[c].merged_into,
            forall|c: int|
                1 <= c < old(self).clusters@.len() && (#[trigger] old(self).clusters@[c]).indices@.len()
                    > 0 ==> exists|b: int|
                    0 <= b < final(self).cluster_areas@.len() && (#[trigger] final(self).cluster_areas@[b]).area == old(self).clusters@[c].indices@.len(),
            tallied(
                final(self).cluster_areas@,
                old(self).clusters@,
                old(self).clusters@.len() as int,
            ),
    {
        let ghost w = self.width as int;
        let ghost h = self.height as int;
        self.stage = 2;
        self.iteration = 0;
        self.cluster_areas = Vec::new();
        proof {
            assert forall|c: int| 0 <= c < self.clusters@.len() implies #[trigger] owns(
                self.clusters@,
                self.cluster_indices@,
                c,
            ) || owns_none(self.clusters@, self.cluster_indices@, c) by {
                assert(owns(old(self).clusters@, old(self).cluster_indices@, c));
            }
            assert forall|c: int, k: int|
                0 <= c < self.clusters@.len() && 0 <= k < self.clusters@[c].indices@.len() implies (
            #[trigger] self.clusters@[c].indices@[k]) < self.scanned() by {
                assert(old(self).clusters@[c].indices@[k] < old(self).scanned());
            }
            assert(self.inv());
        }
        let len = self.clusters.len();
        let mut c: usize = 0;
        while c < len
            invariant
                c <= len,
                len == self.clusters@.len(),
                len == old(self).clusters@.len(),
                w == self.width,
                h == self.height,
                self.inv(),
                self.same_config(old(self)),
                self.stage == 2,
                self.iteration == 0,
                self.cluster_areas@.len() == 0,
                self.clusters_output@ == old(self).clusters_output@,
                self.cluster_indices@ == old(self).cluster_indices@,
                forall|d: int|
                    0 <= d < len ==> (#[trigger] self.clusters@[d]).indices@ == old(self).clusters@[d].indices@ && self.clusters@[d].sum == old(self).clusters@[d].sum
                        && self.clusters@[d].rect == old(self).clusters@[d].rect
                        && self.clusters@[d].merged_into == old(self).clusters@[d].merged_into,
                forall|d: int|
                    0 <= d < c ==> (#[trigger] self.clusters@[d]).residue_sum == old(self).clusters@[d].sum,
            decreases len - c,
        {
            let ghost mid = *self;
            let sum = self.clusters[c].sum;
            self.clusters[c].residue_sum = sum;
            proof {
                assert forall|d: int| 0 <= d < self.clusters@.len() implies (#[trigger] self.clusters@[d]).indices@
                    == mid.clusters@[d].indices@ && self.clusters@[d].wf(w, h) by {
                    assert(mid.clusters@[d].wf(w, h));
                    if d == c {
                        assert(self.clusters@[d].cells(w) =~= mid.clusters@[d].cells(w));
                    } else {
                        assert(self.clusters@[d] == mid.clusters@[d]);
                    }
                }
                self.lemma_inv_after_extras(&mid);
            }
            c += 1;
        }
        let mut c: usize = 1;
        while c < len
            invariant
                1 <= c <= len,
                len == self.clusters@.len(),
                len == old(self).clusters@.len(),
                w == self.width,
                h == self.height,
                self.inv(),
                self.same_config(old(self)),
                self.stage == 2,
                self.iteration == 0,
                self.clusters_output@ == old(self).clusters_output@,
                self.cluster_indices@ == old(self).cluster_indices@,
                forall|d: int|
                    0 <= d < len ==> (#[trigger] self.clusters@[d]).indices@ == old(self).clusters@[d].indices@ && self.clusters@[d].sum == old(self).clusters@[d].sum
                        && self.clusters@[d].rect == old(self).clusters@[d].rect
                        && self.clusters@[d].merged_into == old(self).clusters@[d].merged_into
                        && self.clusters@[d].residue_sum == old(self).clusters@[d].sum,
                forall|d: int|
                    1 <= d < c && (#[trigger] old(self).clusters@[d]).indices@.len() > 0
                        ==> exists|b: int|
                        0 <= b < self.cluster_areas@.len() && (#[trigger] self.cluster_areas@[b]).area
                            == old(self).clusters@[d].indices@.len(),
                tallied(self.cluster_areas@, old(self).clusters@, c as int),
            decreases len - c,
        {
            let ghost bins = self.cluster_areas@;
            proof {
                assert(bins_sorted(bins));
            }
            let area = self.clusters[c].area();
            if area > 0 {
                let ghost mid = *self;
                proof {
                    assert(self.clusters@[c as int].wf(w, h));
                    lemma_distinct_len(self.clusters@[c as int].indices@, w * h);
                }
                bump_area(&mut self.cluster_areas, area);
                proof {
                    self.lemma_inv_after_bookkeeping(&mid);
                    let b0 = choose|p: int|
                        0 <= p < self.cluster_areas@.len() && (#[trigger] self.cluster_areas@[p]).area
                            == area;
                    assert forall|d: int|
                        1 <= d < c + 1 && (#[trigger] old(self).clusters@[d]).indices@.len()
                            > 0 implies exists|b: int|
                        0 <= b < self.cluster_areas@.len() && (#[trigger] self.cluster_areas@[b]).area
                            == old(self).clusters@[d].indices@.len() by {
                        if d < c {
                            let b = choose|b: int|
                                0 <= b < mid.cluster_areas@.len() && (#[trigger] mid.cluster_areas@[b]).area
                                    == old(self).clusters@[d].indices@.len();
                            let key = mid.cluster_areas@[b].area;
                            if key == area {
                                assert(self.cluster_areas@[b0].area == key);
                            } else {
                                self.lemma_bin_kept(&mid, b, area);
                            }
                        } else {
                            assert(self.cluster_areas@[b0].area == area);
                        }
                    }
                }
            }
            proof {
                assert(tallied(bins, old(self).clusters@, c as int));
                assert(tallied(self.cluster_areas@, old(self).clusters@, c + 1));
            }
            c += 1;
        }
    }

    /// After an area was recorded in the histogram, a bin of another area
    /// is still there.
    proof fn lemma_bin_kept(&self, before: &Self, b: int, key: usize)
        requires
            0 <= b < before.cluster_areas@.len(),
            before.cluster_areas@[b].area != key,
            bins_sorted(before.cluster_areas@),
            bins_sorted(self.cluster_areas@),
            self.cluster_areas@.len() >= before.cluster_areas@.len(),
            self.cluster_areas@.len() <= before.cluster_areas@.len() + 1,
            exists|p: int|
                0 <= p < self.cluster_areas@.len() && (#[trigger] self.cluster_areas@[p]).area == key,
            forall|i: int|
                0 <= i < before.cluster_areas@.len() && (#[trigger] before.cluster_areas@[i]).area
                    < key ==> self.cluster_areas@[i] == before.cluster_areas@[i],
            forall|i: int|
                0 <= i < before.cluster_areas@.len() && (#[trigger] before.cluster_areas@[i]).area
                    > key ==> exists|j: int|
                    0 <= j < self.cluster_areas@.len() && (#[trigger] self.cluster_areas@[j]).area
                        == before.cluster_areas@[i].area,
        ensures
            exists|j: int|
                0 <= j < self.cluster_areas@.len() && (#[trigger] self.cluster_areas@[j]).area
                    == before.cluster_areas@[b].area,
    {
        if before.cluster_areas@[b].area < key {
            assert(self.cluster_areas@[b] == before.cluster_areas@[b]);
        }
    }

    /// Records every non-empty cluster other than cluster 0 as an output,
    /// in ascending order of area and, for equal areas, of label.
    fn stage_1_output(&mut self)
        requires
            old(self).inv(),
            old(self).stage == 2,
        ensures
            final(self).inv(),
            final(self).same_setup(old(self)),
            final(self).next_index == old(self).next_index,
            final(self).clusters@ == old(self).clusters@,
            final(self).cluster_indices@ == old(self).cluster_indices@,
            final(self).cluster_areas@ == old(self).cluster_areas@,
            final(self).clusters_output@.len() >= old(self).clusters_output@.len(),
            forall|o: int|
                0 <= o < old(self).clusters_output@.len() ==> final(self).clusters_output@[o] == old(self).clusters_output@[o],
            forall|o: int|
                old(self).clusters_output@.len() <= o < final(self).clusters_output@.len() ==> (
                #[trigger] final(self).clusters_output@[o]).0 != 0 && final(self).clusters@[final(self).clusters_output@[o].0 as int].indices@.len() > 0,
            forall|c: int|
                1 <= c < old(self).clusters@.len() && (#[trigger] old(self).clusters@[c]).indices@.len()
                    > 0 ==> exists|o: int|
                    old(self).clusters_output@.len() <= o < final(self).clusters_output@.len()
                        && (#[trigger] final(self).clusters_output@[o]).0 == c,
            forall|o1: int, o2: int|
                old(self).clusters_output@.len() <= o1 < o2 < final(self).clusters_output@.len()
                    ==> ({
                    let c1 = (#[trigger] final(self).clusters_output@[o1]).0 as int;
                    let c2 = (#[trigger] final(self).clusters_output@[o2]).0 as int;
                    let a1 = final(self).clusters@[c1].indices@.len();
                    let a2 = final(self).clusters@[c2].indices@.len();
                    a1 < a2 || (a1 == a2 && c1 < c2)
                }),
    {
        let mut output: Vec<(ClusterIndex, usize)> = Vec::new();
        let len = self.clusters.len();
        let mut index: usize = 1;
        while index < len
            invariant
                1 <= index <= len,
                len == self.clusters@.len(),
                len <= u32::MAX,
                forall|j: int|
                    0 <= j < output@.len() ==> 1 <= (#[trigger] output@[j]).0.0 < index && output@[j].1
                        == self.clusters@[output@[j].0.0 as int].indices@.len() && output@[j].1 > 0,
                forall|j: int, k: int| 0 <= j < k < output@.len() ==> output@[j].0.0 < output@[k].0.0,
                forall|c: int|
                    1 <= c < index && (#[trigger] self.clusters@[c]).indices@.len() > 0
                        ==> exists|j: int| 0 <= j < output@.len() && (#[trigger] output@[j]).0.0 == c,
            decreases len - index,
        {
            let area = self.clusters[index].area();
            if area > 0 {
                let ghost before = output@;
                output.push((ClusterIndex(index as u32), area));
                proof {
                    assert forall|c: int|
                        1 <= c < index + 1 && (#[trigger] self.clusters@[c]).indices@.len()
                            > 0 implies exists|j: int|
                        0 <= j < output@.len() && (#[trigger] output@[j]).0.0 == c by {
                        if c < index {
                            let j = choose|j: int|
                                0 <= j < before.len() && (#[trigger] before[j]).0.0 == c;
                            assert(output@[j].0.0 == c);
                        } else {
                            assert(output@[before.len() as int].0.0 == c);
                        }
                    }
                }
            }
            index += 1;
        }
        let ghost candidates = output@;
        sort_by_area(&mut output);
        let ghost key = |c: (ClusterIndex, usize)| c.1 as int;
        let ghost src = choose|src: Seq<int>| is_stable_sort(candidates, output@, key, src);
        let ghost base = self.clusters_output@.len();
        let total = output.len();
        let mut j: usize = 0;
        while j < total
            invariant
                j <= total,
                total == output@.len(),
                self.inv(),
                self.same_setup(old(self)),
                self.next_index == old(self).next_index,
                self.clusters@ == old(self).clusters@,
                self.cluster_indices@ == old(self).cluster_indices@,
                self.cluster_areas@ == old(self).cluster_areas@,
                base == old(self).clusters_output@.len(),
                self.clusters_output@.len() == base + j,
                is_stable_sort(candidates, output@, key, src),
                forall|k: int|
                    0 <= k < candidates.len() ==> 1 <= (#[trigger] candidates[k]).0.0
                        < self.clusters@.len(),
                forall|o: int|
                    0 <= o < base ==> self.clusters_output@[o] == old(self).clusters_output@[o],
                forall|o: int| 0 <= o < j ==> self.clusters_output@[base + o] == output@[o].0,
            decreases total - j,
        {
            let ghost mid = *self;
            let label = output[j].0;
            proof {
                assert(output@[j as int] == candidates[src[j as int]]);
            }
            self.clusters_output.push(label);
            proof {
                self.lemma_inv_after_bookkeeping(&mid);
            }
            j += 1;
        }
        proof {
            assert forall|o: int| base <= o < self.clusters_output@.len() implies (
            #[trigger] self.clusters_output@[o]).0 != 0 && self.clusters@[self.clusters_output@[o].0 as int].indices@.len()
                > 0 by {
                assert(self.clusters_output@[base + (o - base)] == output@[o - base].0);
                assert(output@[o - base] == candidates[src[o - base]]);
            }
            assert forall|c: int|
                1 <= c < old(self).clusters@.len() && (#[trigger] old(self).clusters@[c]).indices@.len()
                    > 0 implies exists|o: int|
                base <= o < self.clusters_output@.len() && (#[trigger] self.clusters_output@[o]).0
                    == c by {
                let k = choose|k: int| 0 <= k < candidates.len() && (#[trigger] candidates[k]).0.0 == c;
                lemma_sorted_covers(candidates, output@, key, src, k);
                let t = choose|t: int| 0 <= t < src.len() && src[t] == k;
                assert(self.clusters_output@[base + t] == output@[t].0);
            }
            assert forall|o1: int, o2: int|
                base <= o1 < o2 < self.clusters_output@.len() implies ({
                let c1 = (#[trigger] self.clusters_output@[o1]).0 as int;
                let c2 = (#[trigger] self.clusters_output@[o2]).0 as int;
                let a1 = self.clusters@[c1].indices@.len();
                let a2 = self.clusters@[c2].indices@.len();
                a1 < a2 || (a1 == a2 && c1 < c2)
            }) by {
                let t1 = o1 - base;
                let t2 = o2 - base;
                assert(self.clusters_output@[base + t1] == output@[t1].0);
                assert(self.clusters_output@[base + t2] == output@[t2].0);
                assert(output@[t1] == candidates[src[t1]]);
                assert(output@[t2] == candidates[src[t2]]);
                assert(key(output@[t1]) < key(output@[t2]) || (key(output@[t1]) == key(output@[t2])
                    && src[t1] < src[t2]));
            }
        }
    }

    /// Does the pixel of index `i` have a pixel above it?
    pub open spec fn has_up(&self, i: int) -> bool {
        i >= self.width
    }

    /// Does the pixel of index `i` have a pixel to the left of it?
    pub open spec fn has_left(&self, i: int) -> bool {
        i % (self.width as int) > 0
    }

    /// The label of the pixel above, or 0 where there is none.
    pub open spec fn up_label(&self, i: int) -> ClusterIndex {
        if self.has_up(i) {
            self.cluster_indices@[i - self.width]
        } else {
            ClusterIndex(0)
        }
    }

    /// The label of the pixel to the left, or 0 where there is none.
    pub open spec fn left_label(&self, i: int) -> ClusterIndex {
        if self.has_left(i) {
            self.cluster_indices@[i - 1]
        } else {
            ClusterIndex(0)
        }
    }

    /// Do the predicates hold the pixels of index `i` and `j` for the
    /// same?
    pub open spec fn same_pixels(&self, i: int, j: int) -> bool {
        self.predicates.spec_same(self.view_pixel(i), self.view_pixel(j))
    }

    /// Has the pixel of index `i` the key colour, where one is set?
    pub open spec fn keyed(&self, i: int) -> bool {
        self.key != Color::spec_transparent() && self.view_pixel(i) == self.key
    }

    /// Are the clusters of the pixel above and the pixel to the left
    /// joined at the pixel of index `i`? Where their labels differ and the
    /// two pixels are the same, and, unless diagonals count, the pixel is
    /// the same as both.
    pub open spec fn joins(&self, i: int) -> bool {
        &&& self.has_up(i)
        &&& self.has_left(i)
        &&& self.left_label(i) != self.up_label(i)
        &&& self.same_pixels(i - 1, i - self.width)
        &&& (self.diagonal || (self.same_pixels(i, i - 1) && self.same_pixels(i, i - self.width)))
    }

    /// Does the left cluster go into the upper one when the two are
    /// joined? Where it has no more pixels.
    pub open spec fn left_goes(&self, i: int) -> bool {
        self.clusters@[self.left_label(i).0 as int].indices@.len()
            <= self.clusters@[self.up_label(i).0 as int].indices@.len()
    }

    /// The cluster that goes into the other when the two are joined.
    pub open spec fn join_from(&self, i: int) -> ClusterIndex {
        if self.left_goes(i) {
            self.left_label(i)
        } else {
            self.up_label(i)
        }
    }

    /// The cluster that takes the other when the two are joined.
    pub open spec fn join_to(&self, i: int) -> ClusterIndex {
        if self.left_goes(i) {
            self.up_label(i)
        } else {
            self.left_label(i)
        }
    }

    /// Cluster `from` of `before` has gone into cluster `to`: the target
    /// has the pixels of both and the sum of both colour sums, the source
    /// is left without pixels, its pixels are labelled `to`, and nothing
    /// else differs.
    pub open spec fn combined(&self, before: &Self, from: ClusterIndex, to: ClusterIndex) -> bool {
        &&& self.clusters@.len() == before.clusters@.len()
        &&& forall|c: int|
            0 <= c < before.clusters@.len() && c != from.0 && c != to.0 ==> #[trigger] self.clusters@[c]
                == before.clusters@[c]
        &&& self.clusters@[to.0 as int].indices@ == before.clusters@[to.0 as int].indices@
            + before.clusters@[from.0 as int].indices@
        &&& self.clusters@[to.0 as int].sum == before.clusters@[to.0 as int].sum.spec_merge(
            before.clusters@[from.0 as int].sum,
        )
        &&& self.clusters@[from.0 as int].indices@.len() == 0
        &&& self.clusters@[from.0 as int].sum == ColorSum::spec_zero()
        &&& forall|p: int|
            0 <= p < before.n() ==> #[trigger] self.cluster_indices@[p] == (if before.clusters@[from.0 as int].indices@.contains(
                p as u32,
            ) {
                to
            } else {
                before.cluster_indices@[p]
            })
    }

    /// The state after the clusters above and to the left of the pixel of
    /// index `i` were joined where they are to be: the one with fewer
    /// pixels has gone into the other, with as many the left one into the
    /// upper one; and where the left one went and had the last label,
    /// that label is free again.
    pub open spec fn joined(&self, before: &Self, i: int) -> bool {
        if before.joins(i) {
            &&& self.combined(before, before.join_from(i), before.join_to(i))
            &&& self.next_index == (if before.left_goes(i) && before.left_label(i).0
                == before.next_index.0 - 1 && before.next_index.0 == before.clusters@.len() {
                ClusterIndex((before.next_index.0 - 1) as u32)
            } else {
                before.next_index
            })
        } else {
            &&& self.clusters@ == before.clusters@
            &&& self.cluster_indices@ == before.cluster_indices@
            &&& self.next_index == before.next_index
        }
    }

    /// The pixel of index `i`, of colour `color`, has joined cluster `c`
    /// of `mid`: it has that label and is the last pixel of the cluster,
    /// and nothing else differs.
    pub open spec fn attached(&self, mid: &Self, i: int, c: ClusterIndex, color: Color) -> bool {
        &&& self.next_index == mid.next_index
        &&& self.clusters@.len() == mid.clusters@.len()
        &&& self.cluster_indices@ == mid.cluster_indices@.update(i, c)
        &&& self.clusters@[c.0 as int].indices@ == mid.clusters@[c.0 as int].indices@.push(i as u32)
        &&& self.clusters@[c.0 as int].sum == mid.clusters@[c.0 as int].sum.spec_add(color)
        &&& forall|d: int|
            0 <= d < mid.clusters@.len() && d != c.0 ==> #[trigger] self.clusters@[d]
                == mid.clusters@[d]
    }

    /// The pixel of index `i`, of colour `color`, has started a cluster
    /// under the next free label of `mid`: it has that label, the cluster
    /// holds it alone and is its own `merged_into`, the next free label
    /// is one more, and nothing else differs.
    pub open spec fn attached_new(&self, mid: &Self, i: int, color: Color) -> bool {
        let label = mid.next_index;
        &&& self.next_index.0 == label.0 + 1
        &&& self.clusters@.len() == (if label.0 < mid.clusters@.len() {
            mid.clusters@.len()
        } else {
            mid.clusters@.len() + 1
        })
        &&& self.cluster_indices@ == mid.cluster_indices@.update(i, label)
        &&& self.clusters@[label.0 as int].indices@ == seq![i as u32]
        &&& self.clusters@[label.0 as int].sum == ColorSum::spec_zero().spec_add(color)
        &&& self.clusters@[label.0 as int].merged_into == label
        &&& forall|d: int|
            0 <= d < mid.clusters@.len() && d != label.0 ==> #[trigger] self.clusters@[d]
                == mid.clusters@[d]
    }

    /// The pixel of index `i` is labelled, `mid` being the state after
    /// the join and `before` the state before it. A pixel of the key
    /// colour goes to cluster 0, or with `Discard` to no cluster. Any
    /// other takes the label of the pixel above if it is the same as
    /// that, else of the pixel to the left, else, where diagonals count,
    /// of the pixel above to the left, and else starts a cluster. After a
    /// join the pixels above and to the left both count as labelled with
    /// the cluster that took the other.
    pub open spec fn labelled(&self, mid: &Self, before: &Self, i: int) -> bool {
        let color = before.view_pixel(i);
        let w = before.width as int;
        if before.keyed(i) {
            if before.keying_action is Keep {
                self.attached(mid, i, ClusterIndex(0), color)
            } else {
                &&& self.clusters@ == mid.clusters@
                &&& self.cluster_indices@ == mid.cluster_indices@
                &&& self.next_index == mid.next_index
            }
        } else if before.has_up(i) && before.same_pixels(i, i - w) {
            self.attached(mid, i, before.label_after_join(i, before.up_label(i)), color)
        } else if before.has_left(i) && before.same_pixels(i, i - 1) {
            self.attached(mid, i, before.label_after_join(i, before.left_label(i)), color)
        } else if before.diagonal && before.has_up(i) && before.has_left(i) && before.same_pixels(
            i,
            i - w - 1,
        ) {
            self.attached(mid, i, mid.cluster_indices@[i - w - 1], color)
        } else {
            self.attached_new(mid, i, color)
        }
    }

    /// The label that the pixel above or to the left counts as labelled
    /// with after the join: the cluster that took the other, or without a
    /// join its own label `l`.
    pub open spec fn label_after_join(&self, i: int, l: ClusterIndex) -> ClusterIndex {
        if self.joins(i) {
            self.join_to(i)
        } else {
            l
        }
    }

    /// What the scan of the pixel of index `i` of `before` leaves: the
    /// clusters above and to the left are joined where they are to be,
    /// and then the pixel is labelled.
    pub open spec fn scanned_one(&self, before: &Self, i: int) -> bool {
        exists|mid: Self| #[trigger] mid.joined(before, i) && self.labelled(&mid, before, i)
    }

    /// What the scan of the pixels from index `from` up to but without
    /// `to` leaves, one after the other.
    pub open spec fn scanned_upto(&self, before: &Self, from: int, to: int) -> bool
        decreases to - from,
    {
        if to <= from {
            &&& self.clusters@ == before.clusters@
            &&& self.cluster_indices@ == before.cluster_indices@
            &&& self.next_index == before.next_index
        } else {
            exists|mid: Self| #[trigger]
                mid.same_config(before) && mid.scanned_upto(before, from, to - 1) && self.scanned_one(
                    &mid,
                    to - 1,
                )
        }
    }

    /// What the looks at the clusters from label `from` up to but without
    /// `to` leave, one after the other.
    pub open spec fn visited_upto(&self, before: &Self, from: int, to: int) -> bool
        decreases to - from,
    {
        if to <= from {
            self.left_as(before)
        } else {
            exists|mid: Self| #[trigger]
                mid.same_setup(before) && mid.visited_upto(before, from, to - 1) && self.visited(
                    &mid,
                    to - 1,
                )
        }
    }

    /// What the pass of one histogram bin leaves: an empty bin, or none,
    /// leaves everything as it was; else every cluster but cluster 0 was
    /// looked at in the order of the labels.
    pub open spec fn passed(&self, before: &Self) -> bool {
        if before.iteration >= before.cluster_areas@.len() || before.cluster_areas@[before.iteration as int].count
            == 0 {
            self.left_as(before)
        } else {
            self.visited_upto(before, 1, before.clusters@.len() as int)
        }
    }

    /// The first stage has ended on `mid`: every cluster keeps its pixels,
    /// sum, rect and `merged_into`, its residue sum is its sum, the labels
    /// are as they were, and the histogram counts, by area, every cluster
    /// but cluster 0 that holds pixels.
    pub open spec fn prepared(&self, mid: &Self) -> bool {
        &&& self.cluster_indices@ == mid.cluster_indices@
        &&& self.clusters@.len() == mid.clusters@.len()
        &&& forall|c: int|
            0 <= c < mid.clusters@.len() ==> (#[trigger] self.clusters@[c]).indices@
                == mid.clusters@[c].indices@ && self.clusters@[c].sum == mid.clusters@[c].sum
                && self.clusters@[c].rect == mid.clusters@[c].rect && self.clusters@[c].residue_sum
                == mid.clusters@[c].sum && self.clusters@[c].merged_into
                == mid.clusters@[c].merged_into
        &&& forall|c: int|
            1 <= c < mid.clusters@.len() && (#[trigger] mid.clusters@[c]).indices@.len() > 0
                ==> exists|b: int|
                0 <= b < self.cluster_areas@.len() && (#[trigger] self.cluster_areas@[b]).area
                    == mid.clusters@[c].indices@.len()
        &&& tallied(self.cluster_areas@, mid.clusters@, mid.clusters@.len() as int)
    }

    /// What the tick leaves that scans the last pixel, `mid` being the
    /// state with every pixel scanned: the second stage is prepared, or,
    /// with a hierarchical threshold of 0, every cluster but cluster 0
    /// that holds pixels is recorded as output, in ascending order of
    /// area and label, and the work has ended.
    pub open spec fn first_ended(&self, mid: &Self) -> bool {
        &&& self.prepared(mid)
        &&& if mid.hierarchical == 0 {
            &&& self.stage == 3
            &&& self.clusters_output@.len() >= mid.clusters_output@.len()
            &&& forall|o: int|
                0 <= o < mid.clusters_output@.len() ==> self.clusters_output@[o]
                    == mid.clusters_output@[o]
            &&& all_emitted(self.clusters@, self.clusters_output@)
            &&& ascending_from(
                self.clusters@,
                self.clusters_output@,
                mid.clusters_output@.len() as int,
            )
        } else {
            &&& self.stage == 2
            &&& self.iteration == 0
            &&& self.clusters_output@ == mid.clusters_output@
        }
    }

    /// The number of bins that a tick passes at most in the second stage:
    /// a sixteenth of the bins passed so far, and one at least.
    pub open spec fn rounds(&self) -> int {
        if self.iteration / 16 > 1 {
            self.iteration as int / 16
        } else {
            1
        }
    }

    /// What one pass of the second stage leaves, and whether it was the
    /// last: the bin at the frontier is passed and the frontier moves on
    /// by one, unless it was past the last bin already.
    pub open spec fn round(&self, before: &Self, done: bool) -> bool {
        &&& self.passed(before)
        &&& self.same_config(before)
        &&& self.stage == 2
        &&& self.iteration == (if before.iteration < before.cluster_areas@.len() {
            before.iteration + 1
        } else {
            before.iteration as int
        })
        &&& done == (self.iteration == self.cluster_areas@.len())
    }

    /// What the passes of the second stage from number `from` up to but
    /// without number `to` leave, none but the last of them being the
    /// last pass.
    pub open spec fn rounds_passed(&self, before: &Self, from: int, to: int, done: bool) -> bool
        decreases to - from,
    {
        if to <= from {
            &&& self.left_as(before)
            &&& self.iteration == before.iteration
            &&& !done
        } else {
            exists|mid: Self| #[trigger]
                mid.same_config(before) && mid.rounds_passed(before, from, to - 1, false)
                    && mid.stage == 2 && self.round(&mid, done)
        }
    }

    /// The index of the pixel up to which a tick scans in the first
    /// stage: a batch on from the next pixel, or the end of the image.
    pub open spec fn batch_end(&self) -> int {
        if self.iteration + self.batch_size <= self.n() {
            self.iteration + self.batch_size
        } else {
            self.n()
        }
    }

    /// What one tick leaves.
    ///
    /// In the first stage the next pixels are scanned, as many as a batch
    /// holds; when the last pixel is scanned, the first stage ends. In
    /// the second stage bins are passed, as many as `rounds` says or
    /// until the last bin is passed, with which the work ends. After the
    /// end nothing changes.
    pub open spec fn ticked(&self, before: &Self) -> bool {
        if before.stage == 1 {
            let end = before.batch_end();
            exists|mid: Self| #[trigger]
                mid.scanned_upto(before, before.iteration as int, end) && mid.same_config(before)
                    && mid.clusters_output@ == before.clusters_output@ && (if end < before.n() {
                    &&& self.stage == 1
                    &&& self.iteration == end
                    &&& self.clusters@ == mid.clusters@
                    &&& self.cluster_indices@ == mid.cluster_indices@
                    &&& self.next_index == mid.next_index
                    &&& self.clusters_output@ == mid.clusters_output@
                } else {
                    self.first_ended(&mid)
                })
        } else if before.stage == 2 {
            exists|last: Self, k: int, done: bool| #[trigger]
                last.rounds_passed(before, 0, k, done) && 1 <= k <= before.rounds() && (k
                    < before.rounds() ==> done) && self.left_as(&last) && (if done {
                    self.stage == 3 && self.iteration == 0
                } else {
                    self.stage == 2 && self.iteration == last.iteration
                })
        } else {
            &&& self.left_as(before)
            &&& self.stage == before.stage
            &&& self.iteration == before.iteration
        }
    }

    /// What the ticks from number `from` up to but without number `to`
    /// leave, one after the other.
    pub open spec fn ticked_times(&self, before: &Self, from: int, to: int) -> bool
        decreases to - from,
    {
        if to <= from {
            &&& self.left_as(before)
            &&& self.stage == before.stage
            &&& self.iteration == before.iteration
            &&& self.next_index == before.next_index
        } else {
            exists|mid: Self| #[trigger]
                mid.same_config(before) && mid.ticked_times(before, from, to - 1) && self.ticked(
                    &mid,
                )
        }
    }

    /// The state before the first tick of a clustering that `b` asks
    /// for: the image and the settings are those of `b`, no pixel has a
    /// label, and cluster 0 stands alone, with nothing in it.
    pub open spec fn starts(&self, b: &Builder<P>) -> bool {
        &&& self.stage == 1
        &&& self.iteration == 0
        &&& self.diagonal == b.conf.diagonal
        &&& self.hierarchical == b.conf.hierarchical
        &&& self.batch_size == b.conf.batch_size
        &&& self.key == b.conf.key
        &&& self.keying_action == b.conf.keying_action
        &&& self.predicates == b.predicates->0
        &&& self.width == b.image->0.width
        &&& self.height == b.image->0.height
        &&& self.pixels@ == b.image->0.pixels@
        &&& self.clusters@.len() == 1
        &&& self.clusters@[0].is_fresh()
        &&& self.next_index.0 == 1
        &&& self.cluster_areas@.len() == 0
        &&& self.clusters_output@.len() == 0
        &&& self.cluster_indices@.len() == self.width * self.height
        &&& forall|p: int| 0 <= p < self.n() ==> (#[trigger] self.cluster_indices@[p]).0 == 0
    }

    /// `r` holds the clusters, the labels and the outputs of this state.
    pub open spec fn handed_over(&self, r: &Clusters) -> bool {
        &&& r.width == self.width
        &&& r.height == self.height
        &&& r.pixels@ == self.pixels@
        &&& r.clusters@ == self.clusters@
        &&& r.cluster_indices@ == self.cluster_indices@
        &&& r.clusters_output@ == self.clusters_output@
    }

    /// `view` shows this state.
    pub open spec fn is_view_of(&self, view: &ClustersView) -> bool {
        &&& view.width == self.width
        &&& view.height == self.height
        &&& view.pixels@ == self.pixels@
        &&& view.clusters@ == self.clusters@
        &&& view.cluster_indices@ == self.cluster_indices@
        &&& view.clusters_output@ == self.clusters_output@
    }

    /// `ranked` holds the neighbours `list` of cluster `index`, each with
    /// the difference of its mean colour from that of the cluster, in
    /// ascending order of their keys, neighbours of equal key in the order
    /// of the list.
    pub open spec fn is_ranking(&self, index: int, list: Seq<ClusterIndex>, ranked: Seq<NeighbourInfo>) -> bool {
        exists|infos: Seq<NeighbourInfo>|
            #[trigger] ranked_by_key(infos, ranked) && infos.len() == list.len() && forall|j: int|
                0 <= j < list.len() ==> (#[trigger] infos[j]).index == list[j] && infos[j].diff
                    == self.predicates.spec_diff(
                    self.clusters@[index].sum.spec_average(),
                    self.clusters@[list[j].0 as int].sum.spec_average(),
                )
    }

    /// Cluster `index` has no neighbour: in `view`, which shows this
    /// state, `list` holds its neighbours and is empty.
    pub open spec fn alone(&self, index: int, view: ClustersView, list: Seq<ClusterIndex>) -> bool {
        &&& self.is_view_of(&view)
        &&& is_neighbour_list(&self.clusters@[index], &view, list)
        &&& list.len() == 0
    }

    /// What is decided of cluster `index`: in `view`, which shows this
    /// state, `list` holds its neighbours and `ranked` ranks them; the
    /// first of them is the `target`; `deepen` is what the predicate
    /// says where there is no hierarchical limit, and `hollow` is what
    /// the predicate says.
    pub open spec fn chosen(
        &self,
        index: int,
        view: ClustersView,
        list: Seq<ClusterIndex>,
        ranked: &[NeighbourInfo],
        target: ClusterIndex,
        deepen: bool,
        hollow: bool,
    ) -> bool {
        &&& self.is_view_of(&view)
        &&& is_neighbour_list(&self.clusters@[index], &view, list)
        &&& list.len() > 0
        &&& self.is_ranking(index, list, ranked@)
        &&& target == ranked@[0].index
        &&& deepen == (self.hierarchical == HIERARCHICAL_MAX && self.predicates.spec_deepen(
            &view,
            &self.clusters@[index],
            ranked,
        ))
        &&& hollow == self.predicates.spec_hollow(&view, &self.clusters@[index], ranked)
    }

    /// Nothing of the clusters, the labels, the outputs and the histogram
    /// differs from `before`.
    pub open spec fn left_as(&self, before: &Self) -> bool {
        &&& self.clusters@ == before.clusters@
        &&& self.cluster_indices@ == before.cluster_indices@
        &&& self.clusters_output@ == before.clusters_output@
        &&& self.cluster_areas@ == before.cluster_areas@
    }

    /// Cluster `me` is recorded as output, and nothing else differs from
    /// `before`.
    pub open spec fn emitted(&self, before: &Self, me: ClusterIndex) -> bool {
        &&& self.clusters@ == before.clusters@
        &&& self.cluster_indices@ == before.cluster_indices@
        &&& self.clusters_output@ == before.clusters_output@.push(me)
        &&& self.cluster_areas@ == before.cluster_areas@
    }

    /// Cluster `me` of `before` is merged into `target`: the target has
    /// the pixels of both; without `deepen` the cluster is left without
    /// pixels and records the target as the cluster that it was merged
    /// into; with `deepen` it keeps its pixels, is recorded as output,
    /// and the depth of the target goes up; with `hollow` as well, its
    /// pixels are holes of the target. No other cluster differs. In the
    /// histogram the target is taken out with its old area and recorded
    /// with its new one.
    pub open spec fn merged(&self, before: &Self, me: int, target: int, deepen: bool, hollow: bool) -> bool {
        &&& 0 <= target < before.clusters@.len()
        &&& target != me
        &&& target != 0
        &&& self.clusters@.len() == before.clusters@.len()
        &&& forall|c: int|
            0 <= c < before.clusters@.len() && c != me && c != target ==> #[trigger] self.clusters@[c]
                == before.clusters@[c]
        &&& self.clusters@[target].indices@ == before.clusters@[target].indices@
            + before.clusters@[me].indices@
        &&& self.clusters@[target].merged_into == before.clusters@[target].merged_into
        &&& self.clusters@[target].sum == before.clusters@[target].sum.spec_merge(
            before.clusters@[me].sum,
        )
        &&& self.clusters@[me].sum == (if deepen {
            before.clusters@[me].sum
        } else {
            ColorSum::spec_zero()
        })
        &&& forall|p: int|
            0 <= p < before.n() ==> #[trigger] self.cluster_indices@[p] == (if before.clusters@[me].indices@.contains(
                p as u32,
            ) {
                ClusterIndex(target as u32)
            } else {
                before.cluster_indices@[p]
            })
        &&& self.clusters@[target].depth == before.clusters@[target].depth + (if deepen {
            1int
        } else {
            0int
        })
        &&& self.clusters@[target].num_holes == before.clusters@[target].num_holes + (if deepen
            && hollow {
            1int
        } else {
            0int
        })
        &&& self.clusters@[target].holes@ == (if deepen && hollow {
            before.clusters@[target].holes@ + before.clusters@[me].indices@
        } else {
            before.clusters@[target].holes@
        })
        &&& self.clusters@[me].indices@ == (if deepen {
            before.clusters@[me].indices@
        } else {
            Seq::<u32>::empty()
        })
        &&& self.clusters@[me].merged_into == (if deepen {
            before.clusters@[me].merged_into
        } else {
            ClusterIndex(target as u32)
        })
        &&& self.clusters_output@ == (if deepen {
            before.clusters_output@.push(ClusterIndex(me as u32))
        } else {
            before.clusters_output@
        })
        &&& exists|p: int|
            0 <= p < self.cluster_areas@.len() && (#[trigger] self.cluster_areas@[p]).area
                == self.clusters@[target].indices@.len()
        &&& exists|mid: Seq<Area>| #[trigger]
            dropped(
                mid,
                before.cluster_areas@,
                before.clusters@[target].indices@.len() as usize,
            ) && bumped(self.cluster_areas@, mid, self.clusters@[target].indices@.len() as usize)
    }

    /// Cluster `index` of `before` has no neighbour, and is recorded as
    /// output if the bin is the last or keyed pixels are discarded.
    pub open spec fn visited_alone(&self, before: &Self, index: int) -> bool {
        &&& exists|view: ClustersView, list: Seq<ClusterIndex>| #[trigger]
            before.alone(index, view, list)
        &&& if before.iteration == before.cluster_areas@.len() - 1 || before.keying_action
            is Discard {
            self.emitted(before, ClusterIndex(index as u32))
        } else {
            self.left_as(before)
        }
    }

    /// Cluster `index` of `before` is merged into the first of its
    /// neighbours, as the predicates decide.
    pub open spec fn visited_merged(&self, before: &Self, index: int) -> bool {
        exists|
            view: ClustersView,
            list: Seq<ClusterIndex>,
            ranked: &[NeighbourInfo],
            target: ClusterIndex,
            deepen: bool,
            hollow: bool,
        | #[trigger]
            before.chosen(index, view, list, ranked, target, deepen, hollow) && self.merged(
                before,
                index,
                target.0 as int,
                deepen,
                hollow,
            )
    }

    /// What a look at cluster `index` of `before` leaves. A cluster whose
    /// area is not that of the bin, or whose pixels were taken over, is
    /// passed over; one above the hierarchical threshold is recorded as
    /// output; one without a neighbour is recorded as output if the bin
    /// is the last or keyed pixels are discarded; any other is merged
    /// into the first of its neighbours.
    pub open spec fn visited(&self, before: &Self, index: int) -> bool {
        let c = before.clusters@[index];
        let bin = before.cluster_areas@[before.iteration as int];
        if c.indices@.len() != bin.area {
            self.left_as(before)
        } else if bin.area > before.hierarchical {
            self.emitted(before, ClusterIndex(index as u32))
        } else if before.cluster_indices@[c.indices@[0] as int].0 != index {
            self.left_as(before)
        } else {
            self.visited_alone(before, index) || self.visited_merged(before, index)
        }
    }

    /// Looks at cluster `index` while the histogram bin at `iteration` is
    /// the frontier; does nothing unless the cluster has the area of that
    /// bin and owns its pixels.
    ///
    /// A cluster above the hierarchical threshold is recorded as output.
    /// Otherwise its neighbours are collected and ordered by the
    /// difference of their mean colours from its own, then by label. With
    /// no neighbour it is recorded as output if this is the last bin or
    /// keyed pixels are discarded. Else it is merged into the first
    /// neighbour, as `deepen` (asked only without a hierarchical limit)
    /// and `hollow` say, recorded as output first if `deepen`; and the
    /// histogram follows the target's area.
    #[verifier::rlimit(60)]
    fn stage_2_visit(&mut self, index: u32)
        requires
            old(self).inv(),
            old(self).stage == 2,
            1 <= index < old(self).clusters@.len(),
            old(self).iteration < old(self).cluster_areas@.len(),
        ensures
            final(self).inv(),
            final(self).same_setup(old(self)),
            final(self).next_index == old(self).next_index,
            final(self).clusters@.len() == old(self).clusters@.len(),
            grew_or_merged(old(self).clusters@, final(self).clusters@),
            final(self).cluster_areas@.len() >= old(self).cluster_areas@.len(),
            final(self).cluster_areas@[old(self).iteration as int].area == old(self).cluster_areas@[old(self).iteration as int].area,
            final(self).clusters_output@.len() >= old(self).clusters_output@.len(),
            forall|o: int|
                0 <= o < old(self).clusters_output@.len() ==> final(self).clusters_output@[o] == old(self).clusters_output@[o],
            final(self).visited(old(self), index as int),
    {
        let ghost w = self.width as int;
        let ghost h = self.height as int;
        let me = ClusterIndex(index);
        let area = self.clusters[index as usize].area();
        let cur_area = self.cluster_areas[self.iteration as usize].area;
        if area != cur_area {
            return ;
        }
        proof {
            assert(bins_within(self.cluster_areas@, self.n()));
            assert(self.cluster_areas@[self.iteration as int].area >= 1);
        }
        if cur_area > self.hierarchical as usize {
            let ghost mid = *self;
            self.clusters_output.push(me);
            proof {
                self.lemma_inv_after_bookkeeping(&mid);
            }
            return ;
        }
        let first = self.clusters[index as usize].indices[0];
        proof {
            assert(self.clusters@[index as int].wf(w, h));
            assert(self.clusters@[index as int].indices@[0] < w * h);
        }
        if self.cluster_indices[first as usize].0 != index {
            // its pixels were taken over already
            return ;
        }
        proof {
            assert(owns(self.clusters@, self.cluster_indices@, index as int)) by {
                if owns_none(self.clusters@, self.cluster_indices@, index as int) {
                    assert(self.cluster_indices@[self.clusters@[index as int].indices@[0] as int].0
                        != index);
                }
            }
        }
        let mycolor = self.clusters[index as usize].color();
        let mut infos: Vec<NeighbourInfo> = Vec::new();
        let mut target = ClusterIndex(0);
        let mut deepen = false;
        let mut hollow = false;
        {
            let view = self.view();
            let list = self.clusters[index as usize].neighbours(&view);
            let count = list.len();
            let mut t: usize = 0;
            while t < count
                invariant
                    t <= count,
                    count == list@.len(),
                    self.inv(),
                    w == self.width,
                    h == self.height,
                    infos@.len() == t,
                    mycolor == self.clusters@[index as int].sum.spec_average(),
                    forall|j: int|
                        0 <= j < t ==> (#[trigger] infos@[j]).index == list@[j] && infos@[j].diff
                            == self.predicates.spec_diff(
                            mycolor,
                            self.clusters@[list@[j].0 as int].sum.spec_average(),
                        ),
                    forall|j: int|
                        0 <= j < list@.len() ==> (#[trigger] list@[j]).0 != 0 && list@[j].0 != index
                            && exists|q: int|
                            0 <= q < self.cluster_indices@.len() && self.cluster_indices@[q]
                                == list@[j],
                decreases count - t,
            {
                let other = list[t];
                proof {
                    let q = choose|q: int|
                        0 <= q < self.cluster_indices@.len() && self.cluster_indices@[q] == list@[t as int];
                    assert(self.cluster_indices@[q].0 != 0);
                    assert(self.clusters@[other.0 as int].indices@.contains(q as u32));
                    assert(self.clusters@[other.0 as int].wf(w, h));
                }
                let diff = self.predicates.diff(mycolor, self.clusters[other.0 as usize].color());
                infos.push(NeighbourInfo { index: other, diff });
                t += 1;
            }
            proof {
                assert(is_neighbour_list(&self.clusters@[index as int], &view, list@));
            }
            if infos.len() > 0 {
                let ghost unsorted = infos@;
                sort_infos(&mut infos);
                target = infos[0].index;
                proof {
                    let key = |i: NeighbourInfo| spec_neighbour_key(i);
                    let src = choose|src: Seq<int>| is_stable_sort(unsorted, infos@, key, src);
                    assert(infos@[0] == unsorted[src[0]]);
                    let q = choose|q: int|
                        0 <= q < self.cluster_indices@.len() && self.cluster_indices@[q] == target;
                    assert(self.cluster_indices@[q].0 != 0);
                    assert(self.clusters@[target.0 as int].indices@.contains(q as u32));
                    let a = choose|a: int|
                        0 <= a < self.clusters@[target.0 as int].indices@.len()
                            && self.clusters@[target.0 as int].indices@[a] == q as u32;
                    assert(owns(self.clusters@, self.cluster_indices@, target.0 as int)) by {
                        if owns_none(self.clusters@, self.cluster_indices@, target.0 as int) {
                            assert(self.cluster_indices@[self.clusters@[target.0 as int].indices@[a] as int].0
                                != target.0);
                        }
                    }
                    assert(ranked_by_key(unsorted, infos@));
                }
                let ranked = infos.as_slice();
                deepen = if self.hierarchical == HIERARCHICAL_MAX {
                    self.predicates.deepen(&view, &self.clusters[index as usize], ranked)
                } else {
                    false
                };
                hollow = self.predicates.hollow(&view, &self.clusters[index as usize], ranked);
                proof {
                    assert(self.is_ranking(index as int, list@, ranked@));
                    assert(self.chosen(index as int, view, list@, ranked, target, deepen, hollow));
                }
            } else {
                proof {
                    assert(self.alone(index as int, view, list@));
                }
            }
        }
        let ghost start = *self;
        if infos.len() == 0 {
            let can_discard_pixels = match self.keying_action {
                KeyingAction::Discard => true,
                KeyingAction::Keep => false,
            };
            if self.iteration as usize == self.cluster_areas.len() - 1 || can_discard_pixels {
                // the final background, or a cluster with only discarded
                // pixels around it
                let ghost mid = *self;
                self.clusters_output.push(me);
                proof {
                    self.lemma_inv_after_bookkeeping(&mid);
                }
            }
            proof {
                assert(self.visited_alone(&start, index as int));
            }
            return ;
        }
        if deepen {
            let ghost mid = *self;
            self.clusters_output.push(me);
            proof {
                self.lemma_inv_after_bookkeeping(&mid);
            }
        }
        let target_area = self.clusters[target.0 as usize].area();
        let ghost mid = *self;
        drop_area(&mut self.cluster_areas, target_area);
        let ghost lowered = self.cluster_areas@;
        proof {
            assert(bins_sorted(self.cluster_areas@)) by {
                assert forall|i: int, j: int| 0 <= i < j < self.cluster_areas@.len() implies self.cluster_areas@[i].area
                    < self.cluster_areas@[j].area by {
                    assert(mid.cluster_areas@[i].area < mid.cluster_areas@[j].area);
                }
            }
            assert(bins_within(self.cluster_areas@, self.n())) by {
                assert forall|i: int| 0 <= i < self.cluster_areas@.len() implies 1 <= (
                #[trigger] self.cluster_areas@[i]).area <= self.n() by {
                    assert(1 <= mid.cluster_areas@[i].area <= mid.n());
                }
            }
            self.lemma_inv_after_bookkeeping(&mid);
        }
        self.merge_cluster_into(me, target, deepen, hollow);
        let updated_area = self.clusters[target.0 as usize].area();
        let ghost mid2 = *self;
        proof {
            assert(self.clusters@[target.0 as int].wf(w, h));
            lemma_distinct_len(self.clusters@[target.0 as int].indices@, w * h);
        }
        bump_area(&mut self.cluster_areas, updated_area);
        proof {
            self.lemma_inv_after_bookkeeping(&mid2);
            assert(mid2.cluster_areas@[mid2.iteration as int].area < updated_area);
            assert(target_area == start.clusters@[target.0 as int].indices@.len());
            assert(updated_area == self.clusters@[target.0 as int].indices@.len());
            assert(dropped(
                lowered,
                start.cluster_areas@,
                start.clusters@[target.0 as int].indices@.len() as usize,
            ));
            assert(bumped(
                self.cluster_areas@,
                lowered,
                self.clusters@[target.0 as int].indices@.len() as usize,
            ));
            assert(self.merged(&start, index as int, target.0 as int, deepen, hollow));
            assert(self.visited_merged(&start, index as int));
        }
    }

    /// Passes one histogram bin: an empty bin is stepped over; else every
    /// cluster but cluster 0 is looked at in the order of the labels.
    /// `true` once the last bin is passed.
    fn stage_2(&mut self) -> (done: bool)
        requires
            old(self).inv(),
            old(self).stage == 2,
        ensures
            final(self).inv(),
            final(self).same_config(old(self)),
            final(self).stage == 2,
            final(self).next_index == old(self).next_index,
            grew_or_merged(old(self).clusters@, final(self).clusters@),
            final(self).clusters_output@.len() >= old(self).clusters_output@.len(),
            forall|o: int|
                0 <= o < old(self).clusters_output@.len() ==> final(self).clusters_output@[o] == old(self).clusters_output@[o],
            old(self).iteration < old(self).cluster_areas@.len() ==> final(self).iteration == old(self).iteration + 1,
            old(self).iteration >= old(self).cluster_areas@.len() ==> done && final(self).iteration
                == old(self).iteration,
            done == (final(self).iteration == final(self).cluster_areas@.len()),
            final(self).passed(old(self)),
    {
        proof {
            lemma_bins_bounded(self.cluster_areas@, self.n());
        }
        if self.iteration as usize >= self.cluster_areas.len() {
            return true;
        }
        if self.cluster_areas[self.iteration as usize].count == 0 {
            self.iteration += 1;
            return self.iteration as usize == self.cluster_areas.len();
        }
        let len = self.clusters.len();
        let mut index: usize = 1;
        while index < len
            invariant
                self.visited_upto(old(self), 1, index as int),
                1 <= index <= len,
                len == self.clusters@.len(),
                len <= u32::MAX,
                self.inv(),
                self.same_setup(old(self)),
                self.stage == 2,
                self.next_index == old(self).next_index,
                self.iteration < self.cluster_areas@.len(),
                grew_or_merged(old(self).clusters@, self.clusters@),
                self.clusters_output@.len() >= old(self).clusters_output@.len(),
                forall|o: int|
                    0 <= o < old(self).clusters_output@.len() ==> self.clusters_output@[o] == old(self).clusters_output@[o],
            decreases len - index,
        {
            let ghost mid = *self;
            self.stage_2_visit(index as u32);
            proof {
                lemma_grew_or_merged_trans(old(self).clusters@, mid.clusters@, self.clusters@);
                assert(mid.same_setup(old(self)) && mid.visited_upto(old(self), 1, index as int)
                    && self.visited(&mid, index as int));
            }
            index += 1;
        }
        proof {
            lemma_bins_bounded(self.cluster_areas@, self.n());
        }
        self.iteration += 1;
        self.iteration as usize == self.cluster_areas.len()
    }

    /// Performs one bounded unit of work and returns `true` once nothing
    /// is left to do.
    ///
    /// In the first stage that is a batch of pixels scanned; when the last
    /// pixel is scanned, the second stage is prepared or, with a
    /// hierarchical threshold of 0, the clusters are recorded as output
    /// and the work ends. In the second stage it is one histogram bin, or
    /// as many as a sixteenth of the bins passed so far.
    pub fn tick(&mut self) -> (done: bool)
        requires
            old(self).inv(),
        ensures
            final(self).inv(),
            final(self).same_config(old(self)),
            done == (old(self).stage > 2),
            done ==> final(self).stage == old(self).stage && final(self).clusters@ == old(self).clusters@ && final(self).cluster_indices@ == old(self).cluster_indices@ && final(self).clusters_output@ == old(self).clusters_output@,
            old(self).stage >= 2 ==> grew_or_merged(old(self).clusters@, final(self).clusters@),
            final(self).stage >= old(self).stage,
            final(self).clusters_output@.len() >= old(self).clusters_output@.len(),
            forall|o: int|
                0 <= o < old(self).clusters_output@.len() ==> final(self).clusters_output@[o] == old(self).clusters_output@[o],
            !done && old(self).batch_size > 0 ==> final(self).remaining() < old(self).remaining(),
            final(self).remaining() >= 0,
            old(self).stage == 1 && final(self).stage == 1 ==> final(self).clusters_output@ == old(
                self,
            ).clusters_output@,
            old(self).stage == 1 && old(self).hierarchical == 0 ==> final(self).stage == 1
                || final(self).stage == 3,
            old(self).stage == 1 && final(self).stage == 3 ==> all_emitted(
                final(self).clusters@,
                final(self).clusters_output@,
            ) && ascending_from(
                final(self).clusters@,
                final(self).clusters_output@,
                old(self).clusters_output@.len() as int,
            ),
            final(self).ticked(old(self)),
    {
        proof {
            if self.stage == 2 {
                lemma_bins_bounded(self.cluster_areas@, self.n());
            }
        }
        if self.stage == 1 {
            let ended = self.stage_1();
            let ghost scanned = *self;
            if ended {
                self.prepare_stage_2();
                proof {
                    assert(self.prepared(&scanned));
                }
                if self.hierarchical == 0 {
                    let ghost mid = *self;
                    self.stage_1_output();
                    let ghost mid2 = *self;
                    self.stage = 3;
                    proof {
                        assert forall|c: int, k: int|
                            0 <= c < self.clusters@.len() && 0 <= k
                                < self.clusters@[c].indices@.len() implies (
                        #[trigger] self.clusters@[c].indices@[k]) < self.scanned() by {
                            assert(mid2.clusters@[c].indices@[k] < mid2.scanned());
                        }
                        assert(self.inv());
                    }
                }
                proof {
                    lemma_bins_bounded(self.cluster_areas@, self.n());
                    assert(self.prepared(&scanned));
                    assert(self.first_ended(&scanned));
                }
            }
            proof {
                let end = old(self).batch_end();
                assert(scanned.iteration == end);
                assert(scanned.scanned_upto(old(self), old(self).iteration as int, end));
                assert(scanned.same_config(old(self)));
                assert(scanned.clusters_output@ == old(self).clusters_output@);
                if end < old(self).n() {
                    assert(self.clusters@ == scanned.clusters@);
                } else {
                    assert(self.first_ended(&scanned));
                }
                assert(self.ticked(old(self)));
            }
            false
        } else if self.stage == 2 {
            let rounds: u32 = if self.iteration / 16 > 1 {
                self.iteration / 16
            } else {
                1
            };
            let mut round: u32 = 0;
            let mut finished = false;
            while round < rounds && !finished
                invariant
                    round <= rounds,
                    self.inv(),
                    self.same_config(old(self)),
                    self.stage == 2,
                    grew_or_merged(old(self).clusters@, self.clusters@),
                    self.clusters_output@.len() >= old(self).clusters_output@.len(),
                    forall|o: int|
                        0 <= o < old(self).clusters_output@.len() ==> self.clusters_output@[o]
                            == old(self).clusters_output@[o],
                    self.iteration >= old(self).iteration,
                    round > 0 && !finished ==> self.iteration > old(self).iteration,
                    finished ==> self.iteration >= self.cluster_areas@.len(),
                    rounds == old(self).rounds(),
                    self.rounds_passed(old(self), 0, round as int, finished),
                decreases rounds - round,
            {
                let ghost mid = *self;
                finished = self.stage_2();
                proof {
                    lemma_grew_or_merged_trans(old(self).clusters@, mid.clusters@, self.clusters@);
                    assert(mid.rounds_passed(old(self), 0, round as int, false) && mid.same_config(
                        old(self),
                    ) && mid.stage == 2 && self.round(&mid, finished));
                }
                round += 1;
            }
            let ghost last = *self;
            let ghost passes = round as int;
            proof {
                lemma_bins_bounded(self.cluster_areas@, self.n());
            }
            if finished {
                let ghost mid = *self;
                self.stage = 3;
                self.iteration = 0;
                proof {
                    assert forall|c: int, k: int|
                        0 <= c < self.clusters@.len() && 0 <= k
                            < self.clusters@[c].indices@.len() implies (
                    #[trigger] self.clusters@[c].indices@[k]) < self.scanned() by {
                        assert(mid.clusters@[c].indices@[k] < mid.scanned());
                    }
                    assert(self.inv());
                }
            }
            proof {
                assert(last.rounds_passed(old(self), 0, passes, finished) && 1 <= passes
                    <= old(self).rounds() && self.left_as(&last));
                assert(self.ticked(old(self)));
            }
            false
        } else {
            true
        }
    }

    /// Label consistency: a pixel with a label other than 0 is held by
    /// the cluster of its label.
    pub proof fn lemma_label_consistency(&self, p: int)
        requires
            self.inv(),
            0 <= p < self.n(),
            self.cluster_indices@[p].0 != 0,
        ensures
            self.cluster_indices@[p].0 < self.clusters@.len(),
            self.clusters@[self.cluster_indices@[p].0 as int].indices@.contains(p as u32),
    {
    }

    /// A pixel that was scanned is held by the cluster of its label,
    /// unless it has the key colour and such pixels are discarded: then
    /// it keeps the label 0 and no cluster holds it for that.
    pub proof fn lemma_scanned_held(&self, p: int)
        requires
            self.inv(),
            0 <= p < self.scanned(),
            !(self.keyed(p) && self.keying_action is Discard),
        ensures
            self.cluster_indices@[p].0 < self.clusters@.len(),
            self.clusters@[self.cluster_indices@[p].0 as int].indices@.contains(p as u32),
    {
    }

    /// The clusters that own their pixels share out the labelled pixels:
    /// a pixel with a label other than 0 is held by the cluster of its
    /// label, which owns its pixels, and by no other cluster that owns
    /// its pixels.
    pub proof fn lemma_owners_partition(&self, p: int)
        requires
            self.inv(),
            0 <= p < self.n(),
            self.cluster_indices@[p].0 != 0,
        ensures
            self.cluster_indices@[p].0 < self.clusters@.len(),
            self.clusters@[self.cluster_indices@[p].0 as int].indices@.contains(p as u32),
            owns(self.clusters@, self.cluster_indices@, self.cluster_indices@[p].0 as int),
            forall|c: int|
                0 <= c < self.clusters@.len() && #[trigger] owns(
                    self.clusters@,
                    self.cluster_indices@,
                    c,
                ) && self.clusters@[c].indices@.contains(p as u32) ==> c
                    == self.cluster_indices@[p].0,
    {
        let l = self.cluster_indices@[p].0 as int;
        let held = self.clusters@[l].indices@;
        let k = choose|k: int| 0 <= k < held.len() && held[k] == p as u32;
        assert(owns(self.clusters@, self.cluster_indices@, l)) by {
            if owns_none(self.clusters@, self.cluster_indices@, l) {
                assert(self.cluster_indices@[held[k] as int].0 != l);
            }
        }
        assert forall|c: int|
            0 <= c < self.clusters@.len() && #[trigger] owns(self.clusters@, self.cluster_indices@, c)
                && self.clusters@[c].indices@.contains(p as u32) implies c == l by {
            let other = self.clusters@[c].indices@;
            let j = choose|j: int| 0 <= j < other.len() && other[j] == p as u32;
            assert(self.cluster_indices@[other[j] as int].0 == c);
        }
    }

    /// Rect tightness: the rect of a cluster is the tight bounding box of
    /// its pixels, and while the cluster holds pixels each of its holes
    /// is one of them: the rect contains every pixel and hole, and a
    /// pixel touches each of its four sides.
    pub proof fn lemma_rect_tight(&self, c: int)
        requires
            self.inv(),
            0 <= c < self.clusters@.len(),
            self.clusters@[c].indices@.len() > 0,
        ensures
            self.clusters@[c].rect.as_ints() == crate::bound::aabb(
                self.clusters@[c].cells(self.width as int),
            ),
            forall|k: int|
                0 <= k < self.clusters@[c].holes@.len() ==> self.clusters@[c].indices@.contains(
                    #[trigger] self.clusters@[c].holes@[k],
                ),
            forall|k: int|
                0 <= k < self.clusters@[c].indices@.len() ==> self.clusters@[c].rect.left <= (
                #[trigger] self.clusters@[c].indices@[k]) as int % (self.width as int)
                    < self.clusters@[c].rect.right && self.clusters@[c].rect.top
                    <= self.clusters@[c].indices@[k] as int / (self.width as int)
                    < self.clusters@[c].rect.bottom,
    {
        let cl = self.clusters@[c];
        let cells = cl.cells(self.width as int);
        assert(cl.wf(self.width as int, self.height as int));
        crate::bound::lemma_aabb_tight(cells);
        assert forall|k: int| 0 <= k < cl.indices@.len() implies cl.rect.left <= (
        #[trigger] cl.indices@[k]) as int % (self.width as int) < cl.rect.right && cl.rect.top
            <= cl.indices@[k] as int / (self.width as int) < cl.rect.bottom by {
            assert(cells[k] == (
                cl.indices@[k] as int % (self.width as int),
                cl.indices@[k] as int / (self.width as int),
            ));
        }
    }
}

/// `r` is what ticking to the end leaves of the clustering that `b` asks
/// for: some number of ticks leads from the state before the first tick
/// to a state in which the work has ended, which is sound, and `r` holds
/// the clusters, the labels and the outputs of that state.
pub open spec fn ran<P: Predicates>(b: &Builder<P>, r: &Clusters) -> bool {
    exists|start: BuilderImpl<P>, end: BuilderImpl<P>, k: int| #[trigger]
        end.ticked_times(&start, 0, k) && start.starts(b) && end.stage > 2 && end.inv()
            && end.same_config(&start) && end.handed_over(r)
}

/// Has the pixel of index `p` of the image of `b` the key colour of `b`,
/// where one is set?
pub open spec fn keyed_pixel<P: Predicates>(b: &Builder<P>, p: int) -> bool {
    b.conf.key != Color::spec_transparent() && (Color {
        r: b.image->0.pixels@[4 * p],
        g: b.image->0.pixels@[4 * p + 1],
        b: b.image->0.pixels@[4 * p + 2],
        a: b.image->0.pixels@[4 * p + 3],
    }) == b.conf.key
}

/// Label consistency after a run: every pixel is held by the cluster of
/// its label, unless it has the key colour and such pixels are discarded.
pub proof fn lemma_run_holds<P: Predicates>(b: &Builder<P>, r: &Clusters, p: int)
    requires
        ran(b, r),
        0 <= p < r.cluster_indices@.len(),
        !(keyed_pixel(b, p) && b.conf.keying_action is Discard),
    ensures
        r.cluster_indices@[p].0 < r.clusters@.len(),
        r.clusters@[r.cluster_indices@[p].0 as int].indices@.contains(p as u32),
{
    let (start, end, k) = choose|start: BuilderImpl<P>, end: BuilderImpl<P>, k: int| #[trigger]
        end.ticked_times(&start, 0, k) && start.starts(b) && end.stage > 2 && end.inv()
            && end.same_config(&start) && end.handed_over(r);
    assert(end.keyed(p) == keyed_pixel(b, p));
    end.lemma_scanned_held(p);
}

/// Growing or being merged away carries over from step to step.
pub proof fn lemma_grew_or_merged_trans(a: Seq<Cluster>, b: Seq<Cluster>, c: Seq<Cluster>)
    requires
        grew_or_merged(a, b),
        grew_or_merged(b, c),
    ensures
        grew_or_merged(a, c),
{
    assert forall|i: int| 0 <= i < a.len() implies (#[trigger] c[i]).indices@.len()
        >= a[i].indices@.len() || c[i].merged_into.0 != i by {
        assert(b[i].indices@.len() >= a[i].indices@.len() || b[i].merged_into.0 != i);
    }
    assert forall|i: int| 0 <= i < a.len() && a[i].merged_into.0 != i implies (#[trigger] c[i]).merged_into.0
        != i by {
        assert(b[i].merged_into.0 != i);
    }
}

impl<P: Predicates> BuilderImpl<P> {
    /// The state before the first tick: every pixel unlabelled, and
    /// cluster 0 alone, empty.
    pub fn from_builder(b: Builder<P>) -> (s: Self)
        requires
            b.ready(),
        ensures
            s.inv(),
            s.stage == 1,
            s.iteration == 0,
            s.diagonal == b.conf.diagonal,
            s.hierarchical == b.conf.hierarchical,
            s.batch_size == b.conf.batch_size,
            s.key == b.conf.key,
            s.keying_action == b.conf.keying_action,
            s.predicates == b.predicates->0,
            s.width == b.image->0.width,
            s.height == b.image->0.height,
            s.pixels@ == b.image->0.pixels@,
            s.clusters@.len() == 1,
            s.clusters_output@.len() == 0,
            forall|p: int| 0 <= p < s.n() ==> (#[trigger] s.cluster_indices@[p]).0 == 0,
            s.starts(&b),
    {
        let Builder { conf, predicates, image } = b;
        let im = image.unwrap();
        let len = im.pixels.len();
        let count: usize = len / 4;
        let mut cluster_indices: Vec<ClusterIndex> = Vec::new();
        let mut p: usize = 0;
        while p < count
            invariant
                p <= count,
                cluster_indices@.len() == p,
                forall|q: int| 0 <= q < p ==> (#[trigger] cluster_indices@[q]).0 == 0,
            decreases count - p,
        {
            cluster_indices.push(ClusterIndex(0));
            p += 1;
        }
        let mut clusters: Vec<Cluster> = Vec::new();
        clusters.push(Cluster::new());
        let s = Self {
            diagonal: conf.diagonal,
            hierarchical: conf.hierarchical,
            batch_size: conf.batch_size,
            key: conf.key,
            keying_action: conf.keying_action,
            predicates: predicates.unwrap(),
            width: im.width as u32,
            height: im.height as u32,
            pixels: im.pixels,
            clusters,
            cluster_indices,
            cluster_areas: Vec::new(),
            clusters_output: Vec::new(),
            stage: 1,
            iteration: 0,
            next_index: ClusterIndex(1),
        };
        proof {
            let w = s.width as int;
            let h = s.height as int;
            assert(s.clusters@[0].cells(w) =~= Seq::<(int, int)>::empty());
            assert(s.clusters@[0].wf(w, h));
            assert(s.clusters@[0].extras_blank());
            assert(owns(s.clusters@, s.cluster_indices@, 0));
            assert(state_wf(s.clusters@, s.cluster_indices@, w, h));
        }
        s
    }
}

impl<P: Predicates> Builder<P> {
    /// The image and the predicates are set, the image holds four bytes
    /// for every pixel, and it is small enough for the sums of 8-bit
    /// channels over all its pixels to fit 32 bits.
    pub open spec fn ready(&self) -> bool {
        &&& self.image is Some
        &&& self.predicates is Some
        &&& self.image->0.wf()
        &&& self.image->0.width <= u32::MAX
        &&& self.image->0.height <= u32::MAX
        &&& 255 * (self.image->0.width * self.image->0.height) <= u32::MAX
    }

    /// A builder with the default settings, without image or predicates.
    pub fn new() -> (b: Self)
        ensures
            b.image is None,
            b.predicates is None,
            b.conf.diagonal,
            b.conf.hierarchical == HIERARCHICAL_MAX,
            b.conf.batch_size == 10000,
            b.conf.key == Color::spec_transparent(),
            b.conf.keying_action is Keep,
    {
        Self { conf: BuilderConfig::default(), predicates: None, image: None }
    }

    /// Sets the image.
    pub fn from(self, image: ColorImage) -> (b: Self)
        ensures
            b.image == Some(image),
            b.predicates == self.predicates,
            b.conf == self.conf,
    {
        Self { conf: self.conf, predicates: self.predicates, image: Some(image) }
    }

    /// Sets the predicates.
    pub fn predicates(self, predicates: P) -> (b: Self)
        ensures
            b.image == self.image,
            b.predicates == Some(predicates),
            b.conf == self.conf,
    {
        Self { conf: self.conf, predicates: Some(predicates), image: self.image }
    }

    pub fn diagonal(self, diagonal: bool) -> (b: Self)
        ensures
            b.image == self.image,
            b.predicates == self.predicates,
            b.conf == (BuilderConfig { diagonal, ..self.conf }),
    {
        let mut b = self;
        b.conf.diagonal = diagonal;
        b
    }

    pub fn hierarchical(self, hierarchical: u32) -> (b: Self)
        ensures
            b.image == self.image,
            b.predicates == self.predicates,
            b.conf == (BuilderConfig { hierarchical, ..self.conf }),
    {
        let mut b = self;
        b.conf.hierarchical = hierarchical;
        b
    }

    pub fn batch_size(self, batch_size: u32) -> (b: Self)
        ensures
            b.image == self.image,
            b.predicates == self.predicates,
            b.conf == (BuilderConfig { batch_size, ..self.conf }),
    {
        let mut b = self;
        b.conf.batch_size = batch_size;
        b
    }

    pub fn key(self, key: Color) -> (b: Self)
        ensures
            b.image == self.image,
            b.predicates == self.predicates,
            b.conf == (BuilderConfig { key, ..self.conf }),
    {
        let mut b = self;
        b.conf.key = key;
        b
    }

    pub fn keying_action(self, keying_action: KeyingAction) -> (b: Self)
        ensures
            b.image == self.image,
            b.predicates == self.predicates,
            b.conf == (BuilderConfig { keying_action, ..self.conf }),
    {
        let mut b = self;
        b.conf.keying_action = keying_action;
        b
    }

    /// Ticks to the end and hands the clusters over.
    pub fn run(self) -> (r: Clusters)
        requires
            self.ready(),
            self.conf.batch_size > 0,
        ensures
            r.wf(),
            r.width == self.image->0.width,
            r.height == self.image->0.height,
            r.pixels@ == self.image->0.pixels@,
            self.conf.hierarchical == 0 ==> all_emitted(r.clusters@, r.clusters_output@)
                && ascending_from(r.clusters@, r.clusters_output@, 0),
            ran(&self, &r),
    {
        let mut bimpl = BuilderImpl::from_builder(self);
        let ghost start = bimpl;
        let ghost mut ticks: int = 0;
        loop
            invariant
                bimpl.ticked_times(&start, 0, ticks),
                0 <= ticks,
                start.starts(&self),
                bimpl.inv(),
                bimpl.same_config(&start),
                bimpl.batch_size > 0,
                start.hierarchical == self.conf.hierarchical,
                start.hierarchical == 0 ==> (bimpl.stage == 1 && bimpl.clusters_output@.len() == 0)
                    || (bimpl.stage == 3 && all_emitted(bimpl.clusters@, bimpl.clusters_output@)
                    && ascending_from(bimpl.clusters@, bimpl.clusters_output@, 0)),
            ensures
                bimpl.stage > 2,
                bimpl.inv(),
                bimpl.same_config(&start),
                bimpl.ticked_times(&start, 0, ticks),
                0 <= ticks,
                start.starts(&self),
            decreases bimpl.remaining(),
        {
            let ghost mid = bimpl;
            let done = bimpl.tick();
            proof {
                assert(mid.ticked_times(&start, 0, ticks) && mid.same_config(&start) && bimpl.ticked(
                    &mid,
                ));
                ticks = ticks + 1;
            }
            if done {
                break ;
            }
        }
        let ghost end = bimpl;
        let r = bimpl.result();
        proof {
            assert(start.starts(&self) && end.ticked_times(&start, 0, ticks) && end.stage > 2
                && end.inv() && end.same_config(&start) && end.handed_over(&r));
        }
        r
    }

    /// Allocates the state for a clustering carried out tick by tick.
    pub fn start(self) -> (ib: IncrementalBuilder<P>)
        requires
            self.ready(),
        ensures
            ib.builder_impl is Some,
            ib.builder_impl->0.inv(),
            ib.builder_impl->0.stage == 1,
            ib.builder_impl->0.iteration == 0,
            ib.builder_impl->0.batch_size == self.conf.batch_size,
            ib.builder_impl->0.pixels@ == self.image->0.pixels@,
    {
        IncrementalBuilder::new(BuilderImpl::from_builder(self))
    }
}

impl<P: Predicates> IncrementalBuilder<P> {
    fn new(builder_impl: BuilderImpl<P>) -> (ib: Self)
        ensures
            ib.builder_impl == Some(builder_impl),
    {
        Self { builder_impl: Some(builder_impl) }
    }

    /// One bounded unit of work; `true` once nothing is left to do.
    pub fn tick(&mut self) -> (done: bool)
        requires
            old(self).builder_impl is Some,
            old(self).builder_impl->0.inv(),
        ensures
            final(self).builder_impl is Some,
            final(self).builder_impl->0.inv(),
            final(self).builder_impl->0.same_config(&old(self).builder_impl->0),
            done == (old(self).builder_impl->0.stage > 2),
            old(self).builder_impl->0.stage >= 2 ==> grew_or_merged(
                old(self).builder_impl->0.clusters@,
                final(self).builder_impl->0.clusters@,
            ),
            !done && old(self).builder_impl->0.batch_size > 0 ==> final(self).builder_impl->0.remaining() < old(self).builder_impl->0.remaining(),
            final(self).builder_impl->0.remaining() >= 0,
            final(self).builder_impl->0.ticked(&old(self).builder_impl->0),
    {
        let mut taken: Option<BuilderImpl<P>> = None;
        core::mem::swap(&mut self.builder_impl, &mut taken);
        let mut inner = taken.unwrap();
        let done = inner.tick();
        self.builder_impl = Some(inner);
        done
    }

    /// A read-only view of the state.
    pub fn view(&self) -> (v: ClustersView<'_>)
        requires
            self.builder_impl is Some,
        ensures
            v.width == self.builder_impl->0.width,
            v.height == self.builder_impl->0.height,
            v.pixels@ == self.builder_impl->0.pixels@,
            v.clusters@ == self.builder_impl->0.clusters@,
            v.cluster_indices@ == self.builder_impl->0.cluster_indices@,
            v.clusters_output@ == self.builder_impl->0.clusters_output@,
            self.builder_impl->0.inv() ==> v.wf(),
    {
        self.builder_impl.as_ref().unwrap().view()
    }

    /// Hands the clusters over, as they are; the builder is empty after.
    pub fn result(&mut self) -> (r: Clusters)
        requires
            old(self).builder_impl is Some,
        ensures
            final(self).builder_impl is None,
            r.width == old(self).builder_impl->0.width,
            r.height == old(self).builder_impl->0.height,
            r.pixels@ == old(self).builder_impl->0.pixels@,
            r.clusters@ == old(self).builder_impl->0.clusters@,
            r.cluster_indices@ == old(self).builder_impl->0.cluster_indices@,
            r.clusters_output@ == old(self).builder_impl->0.clusters_output@,
            old(self).builder_impl->0.inv() ==> r.wf(),
    {
        let mut taken: Option<BuilderImpl<P>> = None;
        core::mem::swap(&mut self.builder_impl, &mut taken);
        taken.unwrap().result()
    }

    /// Progress in percent; 0 once the clusters were handed over.
    pub fn progress(&self) -> (p: u32)
        requires
            self.builder_impl is Some ==> {
                &&& self.builder_impl->0.inv()
                &&& self.builder_impl->0.stage == 1 ==> self.builder_impl->0.n() > 0
                &&& self.builder_impl->0.stage == 2 ==> self.builder_impl->0.cluster_areas@.len() > 0
            },
        ensures
            p <= 100,
            self.builder_impl is None ==> p == 0,
            self.builder_impl is Some && self.builder_impl->0.stage == 1 ==> p == 50
                * self.builder_impl->0.iteration / self.builder_impl->0.n(),
            self.builder_impl is Some && self.builder_impl->0.stage == 2 ==> p == 50 + 50
                * self.builder_impl->0.iteration / (
            self.builder_impl->0.cluster_areas@.len() as int),
            self.builder_impl is Some && self.builder_impl->0.stage > 2 ==> p == 100,
    {
        match &self.builder_impl {
            None => 0,
            Some(builder) => builder.progress(),
        }
    }
}

} // verus!
