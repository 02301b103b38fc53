//! One cluster of a colour image.

use vstd::prelude::*;
use vstd::std_specs::slice::into_iter_elts;

use crate::bound::BoundingRect;
use crate::color::Color;
use crate::color::ColorSum;
use crate::color_clusters::container::ClusterIndex;
use crate::color_clusters::container::state_wf;
use crate::color_clusters::container::ClustersView;
use crate::grid::cell_index;
use crate::grid::lemma_index_to_cell;
use crate::image::BinaryImage;
use crate::image::ColorImage;

verus! {

/// A cluster of a colour image: the pixels it owns, the pixels recorded
/// as holes, colour sums, its bounding rect, and how it relates to others.
#[derive(Clone)]
pub struct Cluster {
    pub indices: Vec<u32>,
    pub holes: Vec<u32>,
    pub num_holes: u32,
    pub depth: u32,
    pub sum: ColorSum,
    pub residue_sum: ColorSum,
    pub rect: BoundingRect,
    pub merged_into: ClusterIndex,
}

/// The cells of some pixel indices in an image `width` wide.
pub open spec fn cells_of_indices(indices: Seq<u32>, width: int) -> Seq<(int, int)> {
    Seq::new(indices.len(), |k: int| (indices[k] as int % width, indices[k] as int / width))
}

impl Default for Cluster {
    fn default() -> (c: Self)
        ensures
            c.is_fresh(),
    {
        Cluster {
            indices: Vec::new(),
            holes: Vec::new(),
            num_holes: 0,
            depth: 0,
            sum: ColorSum::new(),
            residue_sum: ColorSum::new(),
            rect: BoundingRect::default(),
            merged_into: ClusterIndex(0),
        }
    }
}

impl Cluster {
    /// The cluster holds nothing and every number in it is zero.
    pub open spec fn is_fresh(&self) -> bool {
        &&& self.indices@.len() == 0
        &&& self.holes@.len() == 0
        &&& self.num_holes == 0
        &&& self.depth == 0
        &&& self.sum == ColorSum::spec_zero()
        &&& self.residue_sum == ColorSum::spec_zero()
        &&& self.rect == BoundingRect::spec_zero()
        &&& self.merged_into.0 == 0
    }

    /// The number of pixels.
    pub open spec fn spec_area(&self) -> nat {
        self.indices@.len()
    }

    /// The cells of the cluster's pixels, in order.
    pub open spec fn cells(&self, width: int) -> Seq<(int, int)> {
        cells_of_indices(self.indices@, width)
    }

    /// The cluster is sound inside a `width` by `height` image: its
    /// indices are distinct pixels of the image, its rect is their tight
    /// bounding box, its colour sum counts them, and while it holds pixels
    /// its holes are among them and are no more than they.
    pub open spec fn wf(&self, width: int, height: int) -> bool {
        &&& forall|k: int|
            0 <= k < self.indices@.len() ==> (#[trigger] self.indices@[k]) < width * height
        &&& self.indices@.no_duplicates()
        &&& self.rect.is_aabb_of(self.cells(width))
        &&& self.sum.counter == self.indices@.len()
        &&& self.sum.bounded()
        &&& self.residue_sum.bounded()
        &&& self.indices@.len() > 0 ==> {
            &&& self.residue_sum.counter <= self.sum.counter
            &&& self.depth <= self.indices@.len()
            &&& self.num_holes <= self.indices@.len()
            &&& self.holes@.len() <= self.indices@.len()
            &&& forall|k: int|
                0 <= k < self.holes@.len() ==> self.indices@.contains(#[trigger] self.holes@[k])
        }
    }

    /// Nothing beyond the pixels themselves has been recorded: the residue
    /// sum is zero and there are no holes and no depth.
    pub open spec fn extras_blank(&self) -> bool {
        &&& self.residue_sum == ColorSum::spec_zero()
        &&& self.holes@.len() == 0
        &&& self.num_holes == 0
        &&& self.depth == 0
    }

    pub fn new() -> (c: Self)
        ensures
            c.is_fresh(),
    {
        Cluster {
            indices: Vec::new(),
            holes: Vec::new(),
            num_holes: 0,
            depth: 0,
            sum: ColorSum::new(),
            residue_sum: ColorSum::new(),
            rect: BoundingRect::default(),
            merged_into: ClusterIndex(0),
        }
    }

    /// Adds the pixel of index `i`, which lies at `(x, y)` and has the
    /// colour `color`.
    pub fn add(&mut self, i: u32, color: &Color, x: i32, y: i32)
        requires
            x < i32::MAX,
            y < i32::MAX,
            old(self).sum.r + color.r <= u32::MAX,
            old(self).sum.g + color.g <= u32::MAX,
            old(self).sum.b + color.b <= u32::MAX,
            old(self).sum.a + color.a <= u32::MAX,
            old(self).sum.counter < u32::MAX,
        ensures
            final(self).indices@ == old(self).indices@.push(i),
            final(self).sum == old(self).sum.spec_add(*color),
            final(self).rect.as_ints() == old(self).rect.spec_add_x_y(x as int, y as int),
            final(self).holes == old(self).holes,
            final(self).num_holes == old(self).num_holes,
            final(self).depth == old(self).depth,
            final(self).residue_sum == old(self).residue_sum,
            final(self).merged_into == old(self).merged_into,
    {
        self.indices.push(i);
        self.sum.add(color);
        self.rect.add_x_y(x, y);
    }

    /// The number of pixels.
    pub fn area(&self) -> (a: usize)
        ensures
            a == self.spec_area(),
    {
        self.indices.len()
    }

    pub fn iter(&self) -> (it: core::slice::Iter<'_, u32>)
        ensures
            into_iter_elts(it) == self.indices@,
    {
        broadcast use vstd::std_specs::slice::axiom_spec_slice_iter;

        let it = self.indices.iter();
        proof {
            assert(self.indices@.as_ref().unref() =~= self.indices@);
        }
        it
    }

    /// The mean colour of the pixels.
    pub fn color(&self) -> (c: Color)
        requires
            self.sum.counter > 0,
        ensures
            c == self.sum.spec_average(),
    {
        self.sum.average()
    }

    /// The mean of the residue colour sum.
    pub fn residue_color(&self) -> (c: Color)
        requires
            self.residue_sum.counter > 0,
        ensures
            c == self.residue_sum.spec_average(),
    {
        self.residue_sum.average()
    }
}

/// Distinct pixel indices below `n` are at most `n`.
pub proof fn lemma_distinct_len(s: Seq<u32>, n: int)
    requires
        0 <= n,
        s.no_duplicates(),
        forall|k: int| 0 <= k < s.len() ==> (#[trigger] s[k]) < n,
    ensures
        s.len() <= n,
{
    let t = s.map_values(|v: u32| v as int);
    assert(t.no_duplicates()) by {
        assert forall|i: int, j: int| 0 <= i < t.len() && 0 <= j < t.len() && i != j implies t[i]
            != t[j] by {
            assert(s[i] != s[j]);
        }
    }
    t.unique_seq_to_set();
    vstd::set_lib::lemma_int_range(0, n);
    assert(t.to_set().subset_of(vstd::set_lib::set_int_range(0, n))) by {
        assert forall|v: int| t.to_set().contains(v) implies vstd::set_lib::set_int_range(
            0,
            n,
        ).contains(v) by {
            let k = choose|k: int| 0 <= k < t.len() && t[k] == v;
            assert(s[k] < n);
        }
    }
    vstd::set_lib::lemma_len_subset(t.to_set(), vstd::set_lib::set_int_range(0, n));
}

/// Adds `l` to a list of labels kept in strictly ascending order, unless
/// it is there already.
pub fn insert_sorted(list: &mut Vec<ClusterIndex>, l: ClusterIndex)
    requires
        labels_ascending(old(list)@),
    ensures
        labels_ascending(final(list)@),
        forall|v: ClusterIndex|
            final(list)@.contains(v) <==> (old(list)@.contains(v) || v == l),
{
    let n = list.len();
    let mut pos: usize = 0;
    while pos < n && list[pos].0 < l.0
        invariant
            pos <= n,
            n == list@.len(),
            list@ == old(list)@,
            forall|i: int| 0 <= i < pos ==> (#[trigger] list@[i]).0 < l.0,
        decreases n - pos,
    {
        pos += 1;
    }
    if pos < n && list[pos].0 == l.0 {
        proof {
            assert(list@[pos as int] == l);
        }
        return ;
    }
    list.insert(pos, l);
    proof {
        let before = old(list)@;
        let after = list@;
        assert(after[pos as int] == l);
        assert forall|i: int, j: int| 0 <= i < j < after.len() implies after[i].0 < after[j].0 by {
            let oi = if i < pos {
                i
            } else {
                i - 1
            };
            let oj = if j < pos {
                j
            } else {
                j - 1
            };
            if i != pos && j != pos {
                assert(before[oi].0 < before[oj].0);
            } else if i == pos {
                assert(before[pos as int].0 <= before[oj].0) by {
                    if oj > pos {
                        assert(before[pos as int].0 < before[oj].0);
                    }
                }
            }
        }
        assert forall|v: ClusterIndex| after.contains(v) <==> (before.contains(v) || v == l) by {
            if after.contains(v) {
                let i = choose|i: int| 0 <= i < after.len() && after[i] == v;
                if i < pos {
                    assert(before[i] == v);
                } else if i > pos {
                    assert(before[i - 1] == v);
                }
            }
            if before.contains(v) {
                let i = choose|i: int| 0 <= i < before.len() && before[i] == v;
                if i < pos {
                    assert(after[i] == v);
                } else {
                    assert(after[i + 1] == v);
                }
            }
        }
    }
}

/// The labels are in strictly ascending order.
pub open spec fn labels_ascending(list: Seq<ClusterIndex>) -> bool {
    forall|i: int, j: int| 0 <= i < j < list.len() ==> list[i].0 < list[j].0
}

/// The label next to the pixel of index `i` on side `k` (0 above, 1 below,
/// 2 left, 3 right), or 0 where the image ends.
pub open spec fn neighbour_label(view: &ClustersView, i: int, k: int) -> ClusterIndex {
    let w = view.width as int;
    let h = view.height as int;
    let x = i % w;
    let y = i / w;
    if k == 0 {
        if y > 0 {
            view.cluster_indices@[w * (y - 1) + x]
        } else {
            ClusterIndex(0)
        }
    } else if k == 1 {
        if y < h - 1 {
            view.cluster_indices@[w * (y + 1) + x]
        } else {
            ClusterIndex(0)
        }
    } else if k == 2 {
        if x > 0 {
            view.cluster_indices@[w * y + (x - 1)]
        } else {
            ClusterIndex(0)
        }
    } else {
        if x < w - 1 {
            view.cluster_indices@[w * y + (x + 1)]
        } else {
            ClusterIndex(0)
        }
    }
}

/// The label `label` stands next to a pixel of `cluster`, on one of its
/// four sides.
pub open spec fn next_to(cluster: &Cluster, parent: &ClustersView, label: ClusterIndex) -> bool {
    exists|t: int, k: int|
        0 <= t < cluster.indices@.len() && 0 <= k < 4 && #[trigger] neighbour_label(
            parent,
            cluster.indices@[t] as int,
            k,
        ) == label
}

/// `list` holds the neighbours of `cluster` in `parent`: the labels that
/// stand next to a pixel of the cluster, other than 0 and the label of
/// the cluster's first pixel, in ascending order, each once.
pub open spec fn is_neighbour_list(cluster: &Cluster, parent: &ClustersView, list: Seq<ClusterIndex>) -> bool {
    &&& labels_ascending(list)
    &&& forall|j: int| 0 <= j < list.len() ==> next_to(cluster, parent, #[trigger] list[j])
    &&& forall|j: int|
        0 <= j < list.len() ==> (#[trigger] list[j]).0 != 0 && list[j]
            != parent.cluster_indices@[cluster.indices@[0] as int] && exists|q: int|
            0 <= q < parent.cluster_indices@.len() && parent.cluster_indices@[q] == list[j]
    &&& forall|t: int, k: int|
        0 <= t < cluster.indices@.len() && 0 <= k < 4 && (#[trigger] neighbour_label(
            parent,
            cluster.indices@[t] as int,
            k,
        )).0 != 0 && neighbour_label(parent, cluster.indices@[t] as int, k)
            != parent.cluster_indices@[cluster.indices@[0] as int] ==> list.contains(
            neighbour_label(parent, cluster.indices@[t] as int, k),
        )
}

impl Cluster {
    /// The labels found next to the pixels of this cluster, above, below,
    /// left and right, other than 0 and the label of the cluster's first
    /// pixel; in ascending order, each once.
    pub fn neighbours(&self, parent: &ClustersView) -> (list: Vec<ClusterIndex>)
        requires
            parent.wf(),
            self.wf(parent.width as int, parent.height as int),
            self.indices@.len() > 0,
        ensures
            is_neighbour_list(self, parent, list@),
            labels_ascending(list@),
            forall|j: int|
                0 <= j < list@.len() ==> (#[trigger] list@[j]).0 != 0 && list@[j]
                    != parent.cluster_indices@[self.indices@[0] as int] && exists|q: int|
                    0 <= q < parent.cluster_indices@.len() && parent.cluster_indices@[q]
                        == list@[j],
            forall|t: int, k: int|
                0 <= t < self.indices@.len() && 0 <= k < 4 && (#[trigger] neighbour_label(
                    parent,
                    self.indices@[t] as int,
                    k,
                )).0 != 0 && neighbour_label(parent, self.indices@[t] as int, k)
                    != parent.cluster_indices@[self.indices@[0] as int] ==> list@.contains(
                    neighbour_label(parent, self.indices@[t] as int, k),
                ),
    {
        let n_grid = parent.cluster_indices.len();
        let myself = parent.get_cluster_at(self.indices[0]);
        let mut list: Vec<ClusterIndex> = Vec::new();
        let n = self.indices.len();
        let ghost w = parent.width as int;
        let ghost h = parent.height as int;
        let mut t: usize = 0;
        while t < n
            invariant
                t <= n,
                n == self.indices@.len(),
                parent.wf(),
                self.wf(w, h),
                w == parent.width,
                h == parent.height,
                n_grid == parent.cluster_indices@.len(),
                myself == parent.cluster_indices@[self.indices@[0] as int],
                labels_ascending(list@),
                forall|j: int| 0 <= j < list@.len() ==> next_to(self, parent, #[trigger] list@[j]),
                forall|j: int|
                    0 <= j < list@.len() ==> (#[trigger] list@[j]).0 != 0 && list@[j] != myself
                        && exists|q: int|
                        0 <= q < parent.cluster_indices@.len() && parent.cluster_indices@[q]
                            == list@[j],
                forall|t2: int, k: int|
                    0 <= t2 < t && 0 <= k < 4 && (#[trigger] neighbour_label(
                        parent,
                        self.indices@[t2] as int,
                        k,
                    )).0 != 0 && neighbour_label(parent, self.indices@[t2] as int, k) != myself
                        ==> list@.contains(neighbour_label(parent, self.indices@[t2] as int, k)),
            decreases n - t,
        {
            let i = self.indices[t];
            proof {
                assert(w > 0) by (nonlinear_arith)
                    requires
                        0 <= i < w * h,
                        0 <= w,
                        0 <= h,
                ;
                lemma_index_to_cell(i as int, w, h);
            }
            let x: u32 = i % parent.width;
            let y: u32 = i / parent.width;
            let mut k: u32 = 0;
            while k < 4
                invariant
                    k <= 4,
                    t < n,
                    n == self.indices@.len(),
                    i == self.indices@[t as int],
                    x == i as int % w,
                    y == i as int / w,
                    0 <= x < w,
                    0 <= y < h,
                    w > 0,
                    parent.wf(),
                    w == parent.width,
                    h == parent.height,
                    n_grid == parent.cluster_indices@.len(),
                    labels_ascending(list@),
                    forall|j: int|
                        0 <= j < list@.len() ==> next_to(self, parent, #[trigger] list@[j]),
                    forall|j: int|
                        0 <= j < list@.len() ==> (#[trigger] list@[j]).0 != 0 && list@[j] != myself
                            && exists|q: int|
                            0 <= q < parent.cluster_indices@.len() && parent.cluster_indices@[q]
                                == list@[j],
                    forall|t2: int, k2: int|
                        0 <= t2 < t && 0 <= k2 < 4 && (#[trigger] neighbour_label(
                            parent,
                            self.indices@[t2] as int,
                            k2,
                        )).0 != 0 && neighbour_label(parent, self.indices@[t2] as int, k2)
                            != myself ==> list@.contains(
                            neighbour_label(parent, self.indices@[t2] as int, k2),
                        ),
                    forall|k2: int|
                        0 <= k2 < k && (#[trigger] neighbour_label(parent, i as int, k2)).0 != 0
                            && neighbour_label(parent, i as int, k2) != myself ==> list@.contains(
                            neighbour_label(parent, i as int, k2),
                        ),
                decreases 4 - k,
            {
                proof {
                    crate::grid::lemma_cell_index_bound(x as int, y as int, w, h);
                    if y > 0 {
                        crate::grid::lemma_cell_index_bound(x as int, y - 1, w, h);
                    }
                    if y < h - 1 {
                        crate::grid::lemma_cell_index_bound(x as int, y + 1, w, h);
                    }
                    assert(w * (y - 1) == (y - 1) * w) by (nonlinear_arith);
                    assert(w * (y + 1) == (y + 1) * w) by (nonlinear_arith);
                    assert(w * y == y * w) by (nonlinear_arith);
                }
                let index = if k == 0 {
                    if y > 0 {
                        parent.cluster_indices[(parent.width * (y - 1) + x) as usize]
                    } else {
                        ClusterIndex(0)
                    }
                } else if k == 1 {
                    if y < parent.height - 1 {
                        parent.cluster_indices[(parent.width * (y + 1) + x) as usize]
                    } else {
                        ClusterIndex(0)
                    }
                } else if k == 2 {
                    if x > 0 {
                        parent.cluster_indices[(parent.width * y + (x - 1)) as usize]
                    } else {
                        ClusterIndex(0)
                    }
                } else {
                    if x < parent.width - 1 {
                        parent.cluster_indices[(parent.width * y + (x + 1)) as usize]
                    } else {
                        ClusterIndex(0)
                    }
                };
                assert(index == neighbour_label(parent, i as int, k as int));
                if index.0 != 0 && index.0 != myself.0 {
                    let ghost before = list@;
                    insert_sorted(&mut list, index);
                    proof {
                        assert forall|j: int| 0 <= j < list@.len() implies next_to(
                            self,
                            parent,
                            #[trigger] list@[j],
                        ) by {
                            let v = list@[j];
                            assert(list@.contains(v));
                            if before.contains(v) {
                                let j0 = choose|j0: int| 0 <= j0 < before.len() && before[j0] == v;
                                assert(next_to(self, parent, before[j0]));
                            } else {
                                assert(neighbour_label(parent, self.indices@[t as int] as int, k as int)
                                    == v);
                            }
                        }
                        assert forall|j: int| 0 <= j < list@.len() implies (#[trigger] list@[j]).0
                            != 0 && list@[j] != myself && exists|q: int|
                            0 <= q < parent.cluster_indices@.len() && parent.cluster_indices@[q]
                                == list@[j] by {
                            let v = list@[j];
                            assert(list@.contains(v));
                            if before.contains(v) {
                                let j0 = choose|j0: int| 0 <= j0 < before.len() && before[j0] == v;
                                assert(before[j0].0 != 0);
                            }
                        }
                    }
                }
                k += 1;
            }
            t += 1;
        }
        list
    }
}

impl Cluster {
    /// Every pixel and every hole of the cluster lies inside its rect, in
    /// an image `width` wide.
    pub open spec fn inside_rect(&self, width: int) -> bool {
        &&& width > 0
        &&& forall|k: int|
            0 <= k < self.indices@.len() ==> self.rect.left <= (#[trigger] self.indices@[k]) as int
                % width < self.rect.right && self.rect.top <= self.indices@[k] as int / width
                < self.rect.bottom
        &&& forall|k: int|
            0 <= k < self.holes@.len() ==> self.rect.left <= (#[trigger] self.holes@[k]) as int
                % width < self.rect.right && self.rect.top <= self.holes@[k] as int / width
                < self.rect.bottom
    }

    /// Is the cell `(x, y)` of the whole image a pixel of the cluster?
    pub open spec fn has_cell(&self, width: int, x: int, y: int) -> bool {
        exists|k: int|
            0 <= k < self.indices@.len() && (#[trigger] self.indices@[k]) as int % width == x
                && self.indices@[k] as int / width == y
    }

    /// Is the cell `(x, y)` of the whole image a hole of the cluster?
    pub open spec fn has_hole(&self, width: int, x: int, y: int) -> bool {
        exists|k: int|
            0 <= k < self.holes@.len() && (#[trigger] self.holes@[k]) as int % width == x
                && self.holes@[k] as int / width == y
    }

    /// A sound cluster with pixels lies inside its rect.
    pub proof fn lemma_inside_rect(&self, width: int, height: int)
        requires
            self.wf(width, height),
            self.indices@.len() > 0,
            0 <= width,
            0 <= height,
        ensures
            self.inside_rect(width),
    {
        let cells = self.cells(width);
        crate::bound::lemma_aabb_tight(cells);
        assert(width > 0) by (nonlinear_arith)
            requires
                0 <= self.indices@[0] < width * height,
                0 <= width,
                0 <= height,
        ;
        assert forall|k: int| 0 <= k < self.indices@.len() implies self.rect.left <= (
        #[trigger] self.indices@[k]) as int % width < self.rect.right && self.rect.top
            <= self.indices@[k] as int / width < self.rect.bottom by {
            assert(cells[k] == (self.indices@[k] as int % width, self.indices@[k] as int / width));
        }
        assert forall|k: int| 0 <= k < self.holes@.len() implies self.rect.left <= (
        #[trigger] self.holes@[k]) as int % width < self.rect.right && self.rect.top
            <= self.holes@[k] as int / width < self.rect.bottom by {
            assert(self.indices@.contains(self.holes@[k]));
            let t = choose|t: int| 0 <= t < self.indices@.len() && self.indices@[t] == self.holes@[k];
            assert(cells[t] == (self.indices@[t] as int % width, self.indices@[t] as int / width));
        }
    }

    /// The rect of a sound cluster with pixels lies inside the frame of
    /// the image.
    pub proof fn lemma_rect_in_frame(&self, width: int, height: int)
        requires
            self.wf(width, height),
            self.indices@.len() > 0,
            0 <= width,
            0 <= height,
        ensures
            0 <= self.rect.left < self.rect.right <= width,
            0 <= self.rect.top < self.rect.bottom <= height,
    {
        let cells = self.cells(width);
        crate::bound::lemma_aabb_tight(cells);
        assert(width > 0) by (nonlinear_arith)
            requires
                0 <= self.indices@[0] < width * height,
                0 <= width,
                0 <= height,
        ;
        assert forall|k: int| 0 <= k < cells.len() implies 0 <= (#[trigger] cells[k]).0 < width && 0
            <= cells[k].1 < height by {
            assert(self.indices@[k] < width * height);
            lemma_index_to_cell(self.indices@[k] as int, width, height);
        }
        let i0 = choose|i: int| 0 <= i < cells.len() && (#[trigger] cells[i]).0 == crate::bound::aabb(cells).0;
        let i1 = choose|i: int| 0 <= i < cells.len() && (#[trigger] cells[i]).1 == crate::bound::aabb(cells).1;
        let i2 = choose|i: int|
            0 <= i < cells.len() && (#[trigger] cells[i]).0 + 1 == crate::bound::aabb(cells).2;
        let i3 = choose|i: int|
            0 <= i < cells.len() && (#[trigger] cells[i]).1 + 1 == crate::bound::aabb(cells).3;
        assert(0 <= cells[i0].0 < width);
        assert(0 <= cells[i1].1 < height);
        assert(0 <= cells[i2].0 < width);
        assert(0 <= cells[i3].1 < height);
    }

    /// Does the image of the cluster, on its own rect in an image `width`
    /// wide, show the pixel `(x, y)`: a pixel of the cluster that is no
    /// hole of it?
    pub open spec fn shows(&self, width: int, x: int, y: int) -> bool {
        0 <= x < self.rect.spec_width() && 0 <= y < self.rect.spec_height() && self.has_cell(
            width,
            x + self.rect.left,
            y + self.rect.top,
        ) && !self.has_hole(width, x + self.rect.left, y + self.rect.top)
    }

    /// A pixel that the image of the cluster shows, with a pixel that it
    /// does not show above, below, left or right of it.
    pub open spec fn on_edge(&self, width: int, x: int, y: int) -> bool {
        self.shows(width, x, y) && (!self.shows(width, x - 1, y) || !self.shows(width, x + 1, y)
            || !self.shows(width, x, y - 1) || !self.shows(width, x, y + 1))
    }

    /// The number of boundary pixels of the image of the cluster.
    pub open spec fn spec_perimeter(&self, width: int) -> nat {
        crate::grid::raster_filter(
            self.rect.spec_width(),
            self.rect.spec_width() * self.rect.spec_height(),
            |x: int, y: int| self.on_edge(width, x, y),
        ).len()
    }

    /// The number of boundary pixels of the cluster's image.
    pub fn perimeter(&self, parent: &ClustersView) -> (p: u32)
        requires
            self.inside_rect(parent.width as int),
            self.rect.ordered(),
            self.rect.spec_width() <= i32::MAX,
            self.rect.spec_height() <= i32::MAX,
            self.rect.spec_width() * self.rect.spec_height() <= u32::MAX,
        ensures
            p == self.spec_perimeter(parent.width as int),
            p <= self.rect.spec_width() * self.rect.spec_height(),
    {
        let image = self.to_image(parent);
        let list = crate::shape::geometry::Shape::image_boundary_list(&image);
        proof {
            let width = parent.width as int;
            let w = image.width as int;
            let h = image.height as int;
            let n = image.width * image.height;
            let f = |x: int, y: int| crate::shape::geometry::is_boundary(&image, x, y);
            let g = |x: int, y: int| self.on_edge(width, x, y);
            crate::clusters::lemma_filter_len(w, n, f);
            if w > 0 {
                assert forall|x: int, y: int|
                    0 <= x < w && 0 <= y && crate::grid::cell_index(x, y, w) < n implies #[trigger] f(
                    x,
                    y,
                ) == g(x, y) by {
                    assert(y < h) by (nonlinear_arith)
                        requires
                            y * w + x < w * h,
                            0 <= x < w,
                            0 <= y,
                    ;
                    assert(image.in_bounds(x, y));
                    assert(image.spec_get(x, y) == self.shows(width, x, y));
                    assert(image.spec_get_safe(x - 1, y) == self.shows(width, x - 1, y)) by {
                        if image.in_bounds(x - 1, y) {
                            assert(image.spec_get(x - 1, y) == self.shows(width, x - 1, y));
                        }
                    }
                    assert(image.spec_get_safe(x + 1, y) == self.shows(width, x + 1, y)) by {
                        if image.in_bounds(x + 1, y) {
                            assert(image.spec_get(x + 1, y) == self.shows(width, x + 1, y));
                        }
                    }
                    assert(image.spec_get_safe(x, y - 1) == self.shows(width, x, y - 1)) by {
                        if image.in_bounds(x, y - 1) {
                            assert(image.spec_get(x, y - 1) == self.shows(width, x, y - 1));
                        }
                    }
                    assert(image.spec_get_safe(x, y + 1) == self.shows(width, x, y + 1)) by {
                        if image.in_bounds(x, y + 1) {
                            assert(image.spec_get(x, y + 1) == self.shows(width, x, y + 1));
                        }
                    }
                }
                crate::grid::lemma_raster_filter_congruent(w, n, f, g);
            }
        }
        list.len() as u32
    }

    /// The image of the cluster on its own rect, with its holes unset.
    pub fn to_image(&self, parent: &ClustersView) -> (image: BinaryImage)
        requires
            self.inside_rect(parent.width as int),
            self.rect.ordered(),
            self.rect.spec_width() * self.rect.spec_height() <= usize::MAX,
        ensures
            image.wf(),
            image.width == self.rect.spec_width(),
            image.height == self.rect.spec_height(),
            forall|x: int, y: int|
                image.in_bounds(x, y) ==> #[trigger] image.spec_get(x, y) == (self.has_cell(
                    parent.width as int,
                    x + self.rect.left,
                    y + self.rect.top,
                ) && !self.has_hole(parent.width as int, x + self.rect.left, y + self.rect.top)),
    {
        self.to_image_with_hole(parent.width, true)
    }

    /// The image of the cluster on its own rect, as large as the rect,
    /// in an image `width` wide: the pixels of the cluster are set, and
    /// with `hole` its holes are unset again.
    pub fn to_image_with_hole(&self, width: u32, hole: bool) -> (image: BinaryImage)
        requires
            self.inside_rect(width as int),
            self.rect.ordered(),
            self.rect.spec_width() * self.rect.spec_height() <= usize::MAX,
        ensures
            image.wf(),
            image.width == self.rect.spec_width(),
            image.height == self.rect.spec_height(),
            forall|x: int, y: int|
                image.in_bounds(x, y) ==> #[trigger] image.spec_get(x, y) == (self.has_cell(
                    width as int,
                    x + self.rect.left,
                    y + self.rect.top,
                ) && !(hole && self.has_hole(width as int, x + self.rect.left, y + self.rect.top))),
    {
        let ghost wd = width as int;
        let w: usize = (self.rect.right as i64 - self.rect.left as i64) as usize;
        let h: usize = (self.rect.bottom as i64 - self.rect.top as i64) as usize;
        let mut image = BinaryImage::new_w_h(w, h);
        let n = self.indices.len();
        let mut t: usize = 0;
        while t < n
            invariant
                t <= n,
                n == self.indices@.len(),
                wd == width,
                self.inside_rect(wd),
                image.wf(),
                image.width == w,
                image.height == h,
                w == self.rect.spec_width(),
                h == self.rect.spec_height(),
                forall|x: int, y: int|
                    image.in_bounds(x, y) ==> #[trigger] image.spec_get(x, y) == (exists|k: int|
                        0 <= k < t && (#[trigger] self.indices@[k]) as int % wd == x
                            + self.rect.left && self.indices@[k] as int / wd == y + self.rect.top),
            decreases n - t,
        {
            let i = self.indices[t];
            proof {
                assert(self.rect.left <= self.indices@[t as int] as int % wd < self.rect.right);
            }
            let x: usize = ((i % width) as i64 - self.rect.left as i64) as usize;
            let y: usize = ((i / width) as i64 - self.rect.top as i64) as usize;
            proof {
                image.lemma_in_store(x as int, y as int);
            }
            let ghost before = image;
            image.set_pixel(x, y, true);
            proof {
                assert forall|x2: int, y2: int| image.in_bounds(x2, y2) implies #[trigger] image.spec_get(
                    x2,
                    y2,
                ) == (exists|k: int|
                    0 <= k < t + 1 && (#[trigger] self.indices@[k]) as int % wd == x2
                        + self.rect.left && self.indices@[k] as int / wd == y2 + self.rect.top) by {
                    if x2 == x && y2 == y {
                        assert(self.indices@[t as int] as int % wd == x2 + self.rect.left);
                    } else if before.spec_get(x2, y2) {
                        let k = choose|k: int|
                            0 <= k < t && (#[trigger] self.indices@[k]) as int % wd == x2
                                + self.rect.left && self.indices@[k] as int / wd == y2
                                + self.rect.top;
                        assert(self.indices@[k] as int % wd == x2 + self.rect.left);
                    }
                }
            }
            t += 1;
        }
        if hole {
            let m = self.holes.len();
            let mut t: usize = 0;
            while t < m
                invariant
                    t <= m,
                    m == self.holes@.len(),
                    wd == width,
                    self.inside_rect(wd),
                    image.wf(),
                    image.width == w,
                    image.height == h,
                    w == self.rect.spec_width(),
                    h == self.rect.spec_height(),
                    forall|x: int, y: int|
                        image.in_bounds(x, y) ==> #[trigger] image.spec_get(x, y) == (self.has_cell(
                            wd,
                            x + self.rect.left,
                            y + self.rect.top,
                        ) && !(exists|k: int|
                            0 <= k < t && (#[trigger] self.holes@[k]) as int % wd == x
                                + self.rect.left && self.holes@[k] as int / wd == y
                                + self.rect.top)),
                decreases m - t,
            {
                let i = self.holes[t];
                proof {
                    assert(self.rect.left <= self.holes@[t as int] as int % wd < self.rect.right);
                }
                let x: usize = ((i % width) as i64 - self.rect.left as i64) as usize;
                let y: usize = ((i / width) as i64 - self.rect.top as i64) as usize;
                proof {
                    image.lemma_in_store(x as int, y as int);
                }
                let ghost before = image;
                image.set_pixel(x, y, false);
                proof {
                    assert forall|x2: int, y2: int| image.in_bounds(x2, y2) implies #[trigger] image.spec_get(
                        x2,
                        y2,
                    ) == (self.has_cell(wd, x2 + self.rect.left, y2 + self.rect.top) && !(exists|
                        k: int,
                    |
                        0 <= k < t + 1 && (#[trigger] self.holes@[k]) as int % wd == x2
                            + self.rect.left && self.holes@[k] as int / wd == y2
                            + self.rect.top)) by {
                        if x2 == x && y2 == y {
                            assert(self.holes@[t as int] as int % wd == x2 + self.rect.left);
                        } else {
                            if exists|k: int|
                                0 <= k < t + 1 && (#[trigger] self.holes@[k]) as int % wd == x2
                                    + self.rect.left && self.holes@[k] as int / wd == y2
                                    + self.rect.top {
                                let k = choose|k: int|
                                    0 <= k < t + 1 && (#[trigger] self.holes@[k]) as int % wd == x2
                                        + self.rect.left && self.holes@[k] as int / wd == y2
                                        + self.rect.top;
                                assert(k < t);
                                assert(self.holes@[k] as int % wd == x2 + self.rect.left);
                            }
                        }
                    }
                }
                t += 1;
            }
        }
        image
    }

    /// Sets the pixels of the cluster in `image`, an image of the size of
    /// the whole image.
    pub fn render_to_binary_image(&self, parent: &ClustersView, image: &mut BinaryImage)
        requires
            old(image).wf(),
            old(image).width == parent.width,
            old(image).height == parent.height,
            forall|k: int|
                0 <= k < self.indices@.len() ==> (#[trigger] self.indices@[k]) < parent.width
                    * parent.height,
        ensures
            final(image).wf(),
            final(image).width == old(image).width,
            final(image).height == old(image).height,
            forall|x: int, y: int|
                old(image).in_bounds(x, y) ==> #[trigger] final(image).spec_get(x, y) == (old(image).spec_get(x, y) || self.has_cell(parent.width as int, x, y)),
    {
        let ghost wd = parent.width as int;
        let n = self.indices.len();
        let mut t: usize = 0;
        while t < n
            invariant
                t <= n,
                n == self.indices@.len(),
                wd == parent.width,
                image.wf(),
                image.width == parent.width,
                image.height == parent.height,
                image.width == old(image).width,
                image.height == old(image).height,
                forall|k: int|
                    0 <= k < self.indices@.len() ==> (#[trigger] self.indices@[k]) < parent.width
                        * parent.height,
                forall|x: int, y: int|
                    image.in_bounds(x, y) ==> #[trigger] image.spec_get(x, y) == (old(image).spec_get(x, y) || exists|k: int|
                        0 <= k < t && (#[trigger] self.indices@[k]) as int % wd == x
                            && self.indices@[k] as int / wd == y),
            decreases n - t,
        {
            let i = self.indices[t];
            proof {
                assert(self.indices@[t as int] < parent.width * parent.height);
                assert(wd > 0) by (nonlinear_arith)
                    requires
                        0 <= i < wd * parent.height,
                        0 <= wd,
                ;
                lemma_index_to_cell(i as int, wd, parent.height as int);
            }
            let x = i % parent.width;
            let y = i / parent.width;
            proof {
                image.lemma_in_store(x as int, y as int);
            }
            let ghost before = image;
            image.set_pixel(x as usize, y as usize, true);
            proof {
                assert forall|x2: int, y2: int| image.in_bounds(x2, y2) implies #[trigger] image.spec_get(
                    x2,
                    y2,
                ) == (old(image).spec_get(x2, y2) || exists|k: int|
                    0 <= k < t + 1 && (#[trigger] self.indices@[k]) as int % wd == x2
                        && self.indices@[k] as int / wd == y2) by {
                    if x2 == x && y2 == y {
                        assert(self.indices@[t as int] as int % wd == x2);
                    } else if before.spec_get(x2, y2) && !old(image).spec_get(x2, y2) {
                        let k = choose|k: int|
                            0 <= k < t && (#[trigger] self.indices@[k]) as int % wd == x2
                                && self.indices@[k] as int / wd == y2;
                        assert(self.indices@[k] as int % wd == x2);
                    }
                }
            }
            t += 1;
        }
    }

    /// Paints the pixels of the cluster in `image` with the mean of the
    /// residue colour sum.
    pub fn render_to_color_image(&self, parent: &ClustersView, image: &mut ColorImage)
        requires
            self.residue_sum.counter > 0,
            old(image).wf(),
            old(image).width == parent.width,
            old(image).height == parent.height,
            forall|k: int|
                0 <= k < self.indices@.len() ==> (#[trigger] self.indices@[k]) < parent.width
                    * parent.height,
        ensures
            final(image).wf(),
            final(image).width == old(image).width,
            final(image).height == old(image).height,
            forall|x: int, y: int|
                old(image).in_bounds(x, y) ==> #[trigger] final(image).spec_get(x, y) == (
                if self.has_cell(parent.width as int, x, y) {
                    self.residue_sum.spec_average()
                } else {
                    old(image).spec_get(x, y)
                }),
    {
        let color = self.residue_color();
        self.render_to_color_image_with_color(parent, image, &color);
    }

    /// Paints the pixels of the cluster in `image` with `color`.
    pub fn render_to_color_image_with_color(
        &self,
        parent: &ClustersView,
        image: &mut ColorImage,
        color: &Color,
    )
        requires
            old(image).wf(),
            old(image).width == parent.width,
            old(image).height == parent.height,
            forall|k: int|
                0 <= k < self.indices@.len() ==> (#[trigger] self.indices@[k]) < parent.width
                    * parent.height,
        ensures
            final(image).wf(),
            final(image).width == old(image).width,
            final(image).height == old(image).height,
            forall|x: int, y: int|
                old(image).in_bounds(x, y) ==> #[trigger] final(image).spec_get(x, y) == (
                if self.has_cell(parent.width as int, x, y) {
                    *color
                } else {
                    old(image).spec_get(x, y)
                }),
    {
        let ghost wd = parent.width as int;
        let n = self.indices.len();
        let mut t: usize = 0;
        while t < n
            invariant
                t <= n,
                n == self.indices@.len(),
                wd == parent.width,
                image.wf(),
                image.width == parent.width,
                image.height == parent.height,
                image.width == old(image).width,
                image.height == old(image).height,
                forall|k: int|
                    0 <= k < self.indices@.len() ==> (#[trigger] self.indices@[k]) < parent.width
                        * parent.height,
                forall|x: int, y: int|
                    image.in_bounds(x, y) ==> #[trigger] image.spec_get(x, y) == (if exists|k: int|
                        0 <= k < t && (#[trigger] self.indices@[k]) as int % wd == x
                            && self.indices@[k] as int / wd == y {
                        *color
                    } else {
                        old(image).spec_get(x, y)
                    }),
            decreases n - t,
        {
            let i = self.indices[t];
            proof {
                assert(self.indices@[t as int] < parent.width * parent.height);
                assert(wd > 0) by (nonlinear_arith)
                    requires
                        0 <= i < wd * parent.height,
                        0 <= wd,
                ;
                lemma_index_to_cell(i as int, wd, parent.height as int);
            }
            let x = i % parent.width;
            let y = i / parent.width;
            proof {
                image.lemma_in_store(x as int, y as int);
            }
            let ghost before = *image;
            image.set_pixel(x as usize, y as usize, color);
            proof {
                assert forall|x2: int, y2: int| image.in_bounds(x2, y2) implies #[trigger] image.spec_get(
                    x2,
                    y2,
                ) == (if exists|k: int|
                    0 <= k < t + 1 && (#[trigger] self.indices@[k]) as int % wd == x2
                        && self.indices@[k] as int / wd == y2 {
                    *color
                } else {
                    old(image).spec_get(x2, y2)
                }) by {
                    if x2 == x && y2 == y {
                        assert(self.indices@[t as int] as int % wd == x2);
                    } else {
                        assert(image.spec_get(x2, y2) == before.spec_get(x2, y2));
                        if exists|k: int|
                            0 <= k < t + 1 && (#[trigger] self.indices@[k]) as int % wd == x2
                                && self.indices@[k] as int / wd == y2 {
                            let k = choose|k: int|
                                0 <= k < t + 1 && (#[trigger] self.indices@[k]) as int % wd == x2
                                    && self.indices@[k] as int / wd == y2;
                            assert(k < t);
                            assert(self.indices@[k] as int % wd == x2);
                        }
                    }
                }
            }
            t += 1;
        }
    }

    /// The shape of the cluster's image.
    pub fn to_shape(&self, parent: &ClustersView) -> (shape: crate::shape::geometry::Shape)
        requires
            self.inside_rect(parent.width as int),
            self.rect.ordered(),
            self.rect.spec_width() * self.rect.spec_height() <= usize::MAX,
        ensures
            shape.image.wf(),
            shape.image.width == self.rect.spec_width(),
            shape.image.height == self.rect.spec_height(),
            forall|x: int, y: int|
                shape.image.in_bounds(x, y) ==> #[trigger] shape.image.spec_get(x, y)
                    == self.shows(parent.width as int, x, y),
    {
        crate::shape::geometry::Shape { image: self.to_image(parent) }
    }
}

} // verus!
