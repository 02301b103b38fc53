//! The clusters of an image and the read-only view handed to predicates.

use vstd::prelude::*;

use crate::color::Color;
use crate::color_clusters::cluster::Cluster;
use crate::image::ColorImage;
use crate::point::PointI32;

verus! {

pub type ClusterIndexElem = u32;

/// The label of a cluster: its position in the list of clusters.
#[derive(Copy, Clone, Debug, Eq, Ord, Hash, PartialEq, PartialOrd, Structural)]
pub struct ClusterIndex(pub ClusterIndexElem);

impl Default for ClusterIndex {
    fn default() -> (i: Self)
        ensures
            i.0 == 0,
    {
        ClusterIndex(0)
    }
}

/// The result of clustering: the image, its clusters, the label of each
/// pixel, and the labels of the output clusters in the order in which they
/// were recorded.
pub struct Clusters {
    pub width: u32,
    pub height: u32,
    pub pixels: Vec<u8>,
    pub clusters: Vec<Cluster>,
    pub cluster_indices: Vec<ClusterIndex>,
    pub clusters_output: Vec<ClusterIndex>,
}

/// Read-only borrow of the state of a clustering.
#[derive(Copy, Clone)]
pub struct ClustersView<'a> {
    pub width: u32,
    pub height: u32,
    pub pixels: &'a [u8],
    pub clusters: &'a [Cluster],
    pub cluster_indices: &'a [ClusterIndex],
    pub clusters_output: &'a [ClusterIndex],
}

/// Walks over the output clusters of a view.
pub struct ClustersOutputIterator<'a> {
    counter: usize,
    total: usize,
    parent: &'a ClustersView<'a>,
}

/// Cluster `c` owns its pixels: each of its indices is labelled `c`.
pub open spec fn owns(clusters: Seq<Cluster>, grid: Seq<ClusterIndex>, c: int) -> bool {
    forall|k: int|
        0 <= k < clusters[c].indices@.len() ==> grid[(#[trigger] clusters[c].indices@[k]) as int].0
            == c
}

/// Cluster `c` owns none of its pixels: none of its indices is labelled `c`.
pub open spec fn owns_none(clusters: Seq<Cluster>, grid: Seq<ClusterIndex>, c: int) -> bool {
    forall|k: int|
        0 <= k < clusters[c].indices@.len() ==> grid[(#[trigger] clusters[c].indices@[k]) as int].0
            != c
}

/// Label consistency: every pixel with a label other than 0 is held by
/// the cluster of its label.
pub open spec fn labels_consistent(clusters: Seq<Cluster>, grid: Seq<ClusterIndex>) -> bool {
    forall|p: int|
        0 <= p < grid.len() && (#[trigger] grid[p]).0 != 0 ==> grid[p].0 < clusters.len()
            && clusters[grid[p].0 as int].indices@.contains(p as u32)
}

/// The state of a clustering over a `width` by `height` image is sound.
pub open spec fn state_wf(
    clusters: Seq<Cluster>,
    grid: Seq<ClusterIndex>,
    width: int,
    height: int,
) -> bool {
    &&& 0 <= width
    &&& 0 <= height
    &&& grid.len() == width * height
    &&& 255 * grid.len() <= u32::MAX
    &&& 1 <= clusters.len() <= grid.len() + 1
    &&& forall|c: int| 0 <= c < clusters.len() ==> (#[trigger] clusters[c]).wf(width, height)
    &&& labels_consistent(clusters, grid)
    &&& forall|c: int|
        0 <= c < clusters.len() ==> #[trigger] owns(clusters, grid, c) || owns_none(
            clusters,
            grid,
            c,
        )
}

/// Cluster `c` is an output.
pub open spec fn is_output(outputs: Seq<ClusterIndex>, c: int) -> bool {
    exists|o: int| 0 <= o < outputs.len() && (#[trigger] outputs[o]).0 == c
}

/// Every cluster but cluster 0 that holds pixels is an output.
pub open spec fn all_emitted(clusters: Seq<Cluster>, outputs: Seq<ClusterIndex>) -> bool {
    forall|c: int|
        1 <= c < clusters.len() && (#[trigger] clusters[c]).indices@.len() > 0 ==> is_output(
            outputs,
            c,
        )
}

/// The outputs from position `from` on are clusters other than cluster 0
/// that hold pixels, in ascending order of area, clusters of equal area
/// in ascending order of their labels.
pub open spec fn ascending_from(clusters: Seq<Cluster>, outputs: Seq<ClusterIndex>, from: int) -> bool {
    &&& forall|o: int|
        from <= o < outputs.len() ==> 1 <= (#[trigger] outputs[o]).0 < clusters.len()
            && clusters[outputs[o].0 as int].indices@.len() > 0
    &&& forall|o1: int, o2: int|
        from <= o1 < o2 < outputs.len() ==> ({
            let c1 = (#[trigger] outputs[o1]).0 as int;
            let c2 = (#[trigger] outputs[o2]).0 as int;
            let a1 = clusters[c1].indices@.len();
            let a2 = clusters[c2].indices@.len();
            a1 < a2 || (a1 == a2 && c1 < c2)
        })
}

impl Clusters {
    /// The state is sound and every output label names a cluster.
    pub open spec fn wf(&self) -> bool {
        &&& state_wf(
            self.clusters@,
            self.cluster_indices@,
            self.width as int,
            self.height as int,
        )
        &&& self.pixels@.len() == 4 * self.cluster_indices@.len()
        &&& forall|o: int|
            0 <= o < self.clusters_output@.len() ==> (#[trigger] self.clusters_output@[o]).0
                < self.clusters@.len()
    }

    /// Where every cluster that holds pixels is an output, the outputs
    /// share out the labelled pixels: a pixel with a label other than 0
    /// is held by an output cluster, the one of its label.
    pub proof fn lemma_outputs_cover(&self, p: int)
        requires
            self.wf(),
            all_emitted(self.clusters@, self.clusters_output@),
            0 <= p < self.cluster_indices@.len(),
            self.cluster_indices@[p].0 != 0,
        ensures
            exists|o: int|
                0 <= o < self.clusters_output@.len() && (#[trigger] self.clusters_output@[o])
                    == self.cluster_indices@[p] && self.clusters@[self.clusters_output@[o].0 as int].indices@.contains(
                    p as u32,
                ),
    {
        let l = self.cluster_indices@[p].0 as int;
        assert(self.clusters@[l].indices@.contains(p as u32));
        assert(self.clusters@[l].indices@.len() > 0);
        assert(is_output(self.clusters_output@, l));
        let o = choose|o: int|
            0 <= o < self.clusters_output@.len() && (#[trigger] self.clusters_output@[o]).0 == l;
        assert(self.clusters_output@[o] == self.cluster_indices@[p]);
    }

    /// The number of output clusters.
    pub fn output_len(&self) -> (n: usize)
        ensures
            n == self.clusters_output@.len(),
    {
        self.clusters_output.len()
    }

    pub fn view(&self) -> (v: ClustersView<'_>)
        ensures
            v.width == self.width,
            v.height == self.height,
            v.pixels@ == self.pixels@,
            v.clusters@ == self.clusters@,
            v.cluster_indices@ == self.cluster_indices@,
            v.clusters_output@ == self.clusters_output@,
            self.wf() ==> v.wf(),
    {
        ClustersView {
            width: self.width,
            height: self.height,
            pixels: self.pixels.as_slice(),
            clusters: self.clusters.as_slice(),
            cluster_indices: self.cluster_indices.as_slice(),
            clusters_output: self.clusters_output.as_slice(),
        }
    }

    /// Gives the image back.
    pub fn take_image(self) -> (image: ColorImage)
        ensures
            image.pixels@ == self.pixels@,
            image.width == self.width,
            image.height == self.height,
    {
        ColorImage { pixels: self.pixels, width: self.width as usize, height: self.height as usize }
    }
}

impl<'a> ClustersView<'a> {
    /// The state is sound and every output label names a cluster.
    pub open spec fn wf(&self) -> bool {
        &&& state_wf(
            self.clusters@,
            self.cluster_indices@,
            self.width as int,
            self.height as int,
        )
        &&& self.pixels@.len() == 4 * self.cluster_indices@.len()
        &&& forall|o: int|
            0 <= o < self.clusters_output@.len() ==> (#[trigger] self.clusters_output@[o]).0
                < self.clusters@.len()
    }

    /// The colour stored for the pixel of index `i`.
    pub open spec fn spec_pixel(&self, i: int) -> Color {
        Color {
            r: self.pixels@[4 * i],
            g: self.pixels@[4 * i + 1],
            b: self.pixels@[4 * i + 2],
            a: self.pixels@[4 * i + 3],
        }
    }

    /// Walks over the output clusters in the order of the output list.
    pub fn iter(&'a self) -> (it: ClustersOutputIterator<'a>)
        ensures
            it.spec_parent() == self,
            it.spec_counter() == 0,
            it.spec_total() == self.clusters_output@.len(),
    {
        ClustersOutputIterator { counter: 0, total: self.clusters_output.len(), parent: self }
    }

    pub fn get_cluster(&self, index: ClusterIndex) -> (c: &Cluster)
        requires
            index.0 < self.clusters@.len(),
        ensures
            *c == self.clusters@[index.0 as int],
    {
        &self.clusters[index.0 as usize]
    }

    /// The label of the pixel at `point`.
    pub fn get_cluster_at_point(&self, point: PointI32) -> (l: ClusterIndex)
        requires
            0 <= point.x,
            0 <= point.y,
            point.y * self.width + point.x < self.cluster_indices@.len(),
        ensures
            l == self.cluster_indices@[point.y * self.width + point.x],
    {
        let n = self.cluster_indices.len();
        assert(point.y * self.width <= point.y * self.width + point.x);
        let index: usize = point.y as usize * self.width as usize + point.x as usize;
        self.cluster_indices[index]
    }

    /// The label of the pixel of index `index`.
    pub fn get_cluster_at(&self, index: u32) -> (l: ClusterIndex)
        requires
            index < self.cluster_indices@.len(),
        ensures
            l == self.cluster_indices@[index as int],
    {
        self.cluster_indices[index as usize]
    }

    /// The colour at `(x, y)`; `None` for a negative coordinate, a column
    /// past the width or a pixel past the end of the store.
    pub fn get_pixel(&self, x: i32, y: i32) -> (c: Option<Color>)
        ensures
            c == (if x < 0 || y < 0 || x >= self.width || 4 * (y * self.width + x) + 3
                >= self.pixels@.len() {
                None
            } else {
                Some(self.spec_pixel(y * self.width + x))
            }),
    {
        if x < 0 || y < 0 {
            return None;
        }
        if x as u32 >= self.width {
            return None;
        }
        let n = self.pixels.len();
        assert(0 <= y * self.width <= i32::MAX * u32::MAX) by (nonlinear_arith)
            requires
                0 <= y <= i32::MAX,
                0 <= self.width <= u32::MAX,
        ;
        let index: u64 = y as u64 * self.width as u64 + x as u64;
        if index >= 0x3fff_ffff_ffff_ffff {
            return None;
        }
        let first: u64 = index * 4;
        if first + 3 >= n as u64 {
            return None;
        }
        let start: usize = first as usize;
        Some(
            Color::new_rgba(
                self.pixels[start],
                self.pixels[start + 1],
                self.pixels[start + 2],
                self.pixels[start + 3],
            ),
        )
    }

    /// The image in which every output cluster is painted with its
    /// residue colour, the clusters recorded last first, so that what was
    /// recorded first lies on top.
    pub fn to_color_image(&self) -> (image: ColorImage)
        requires
            self.wf(),
            self.width * self.height * 4 <= usize::MAX,
            forall|o: int|
                0 <= o < self.clusters_output@.len() ==> self.clusters@[(
                #[trigger] self.clusters_output@[o]).0 as int].residue_sum.counter > 0,
        ensures
            image.wf(),
            image.width == self.width,
            image.height == self.height,
            forall|x: int, y: int|
                image.in_bounds(x, y) ==> #[trigger] image.spec_get(x, y) == self.spec_painted(
                    x,
                    y,
                    0,
                ),
    {
        let mut image = ColorImage::new_w_h(self.width as usize, self.height as usize);
        proof {
            assert forall|x: int, y: int| image.in_bounds(x, y) implies #[trigger] image.spec_get(
                x,
                y,
            ) == Color::spec_transparent() by {
                image.lemma_in_store(x, y);
            }
        }
        let n = self.clusters_output.len();
        let mut o: usize = n;
        while o > 0
            invariant
                o <= n,
                n == self.clusters_output@.len(),
                self.wf(),
                image.wf(),
                image.width == self.width,
                image.height == self.height,
                forall|k: int|
                    0 <= k < self.clusters_output@.len() ==> self.clusters@[(
                    #[trigger] self.clusters_output@[k]).0 as int].residue_sum.counter > 0,
                forall|x: int, y: int|
                    image.in_bounds(x, y) ==> #[trigger] image.spec_get(x, y) == self.spec_painted(
                        x,
                        y,
                        o as int,
                    ),
            decreases o,
        {
            o -= 1;
            let u = self.clusters_output[o];
            let cluster = self.get_cluster(u);
            proof {
                assert(self.clusters@[self.clusters_output@[o as int].0 as int].residue_sum.counter
                    > 0);
                assert(cluster.wf(self.width as int, self.height as int));
            }
            cluster.render_to_color_image(self, &mut image);
        }
        image
    }

    /// The colour of the cell `(x, y)` when the output clusters from
    /// position `from` on are painted, last first: that of the first of
    /// them that holds the cell, and transparent black if none does.
    pub open spec fn spec_painted(&self, x: int, y: int, from: int) -> Color
        decreases self.clusters_output@.len() - from,
    {
        if from >= self.clusters_output@.len() || from < 0 {
            Color::spec_transparent()
        } else {
            let cluster = self.clusters@[self.clusters_output@[from].0 as int];
            if cluster.has_cell(self.width as int, x, y) {
                cluster.residue_sum.spec_average()
            } else {
                self.spec_painted(x, y, from + 1)
            }
        }
    }

    /// The colour of the pixel of index `index`; `None` past the end of
    /// the store.
    pub fn get_pixel_at_index(&self, index: u32) -> (c: Option<Color>)
        ensures
            c == (if 4 * index + 3 >= self.pixels@.len() {
                None
            } else {
                Some(self.spec_pixel(index as int))
            }),
    {
        let n = self.pixels.len();
        let first: u64 = index as u64 * 4;
        if first + 3 >= n as u64 {
            return None;
        }
        let start: usize = first as usize;
        Some(
            Color::new_rgba(
                self.pixels[start],
                self.pixels[start + 1],
                self.pixels[start + 2],
                self.pixels[start + 3],
            ),
        )
    }
}

impl<'a> ClustersOutputIterator<'a> {
    pub closed spec fn spec_counter(&self) -> usize {
        self.counter
    }

    pub closed spec fn spec_total(&self) -> usize {
        self.total
    }

    pub closed spec fn spec_parent(&self) -> &'a ClustersView<'a> {
        self.parent
    }

    /// The next output cluster, or `None` after the last.
    pub fn next(&mut self) -> (r: Option<&'a Cluster>)
        requires
            old(self).spec_parent().wf(),
            old(self).spec_total() == old(self).spec_parent().clusters_output@.len(),
        ensures
            final(self).spec_parent() == old(self).spec_parent(),
            final(self).spec_total() == old(self).spec_total(),
            old(self).spec_counter() < old(self).spec_total() ==> final(self).spec_counter() == old(self).spec_counter() + 1 && r == Some(
                &old(self).spec_parent().clusters@[old(self).spec_parent().clusters_output@[old(self).spec_counter() as int].0 as int],
            ),
            old(self).spec_counter() >= old(self).spec_total() ==> r is None && final(self).spec_counter() == old(self).spec_counter(),
    {
        if self.counter < self.total {
            let index = self.parent.clusters_output[self.counter];
            let cluster = &self.parent.clusters[index.0 as usize];
            self.counter += 1;
            Some(cluster)
        } else {
            None
        }
    }
}

} // verus!
