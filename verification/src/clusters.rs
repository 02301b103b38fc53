//! Connected components of a binary image.

use vstd::prelude::*;
use vstd::std_specs::slice::into_iter_elts;

use crate::bound::aabb;
use crate::bound::BoundingRect;
use crate::grid::cell_index;
use crate::grid::lemma_cell_index_bound;
use crate::grid::lemma_cell_index_injective;
use crate::image::BinaryImage;
use crate::path::paths::PathI32;
use crate::path::simplify::PathSimplifyMode;
use crate::point::PointI32;

verus! {

/// A cluster of binary image pixels.
pub struct Cluster {
    /// Points are in absolute coordinates: `(0, 0)` is the top left corner
    /// of the frame.
    pub points: Vec<PointI32>,
    pub rect: BoundingRect,
}

/// A collection of clusters.
pub struct Clusters {
    pub clusters: Vec<Cluster>,
    pub rect: BoundingRect,
}

/// The cells of some points.
pub open spec fn cells_of(points: Seq<PointI32>) -> Seq<(int, int)> {
    Seq::new(points.len(), |k: int| (points[k].x as int, points[k].y as int))
}

/// The set pixels among the first `n` pixels of an image, in raster order.
pub open spec fn set_cells(image: &BinaryImage, n: int) -> Seq<(int, int)> {
    crate::grid::raster_filter(image.width as int, n, |x: int, y: int| image.spec_get(x, y))
}

/// The sizes for which the pixels of an image can be labelled: every
/// coordinate fits an `i32` and the number of pixels a `u32`.
pub open spec fn labelling_fits(image: &BinaryImage) -> bool {
    &&& image.wf()
    &&& image.width <= i32::MAX
    &&& image.height <= i32::MAX
    &&& image.width * image.height < u32::MAX
}

/// Are the cells `a` and `b` neighbours: one above, below, left or right
/// of the other, or with `diagonal` also diagonally next to it?
pub open spec fn adjacent(diagonal: bool, a: (int, int), b: (int, int)) -> bool {
    let dx = b.0 - a.0;
    let dy = b.1 - a.1;
    if diagonal {
        -1 <= dx <= 1 && -1 <= dy <= 1 && (dx != 0 || dy != 0)
    } else {
        (dx == 0 && (dy == 1 || dy == -1)) || (dy == 0 && (dx == 1 || dx == -1))
    }
}

/// A chain of set pixels, each a neighbour of the one before it.
pub open spec fn is_chain(image: &BinaryImage, diagonal: bool, path: Seq<(int, int)>) -> bool {
    &&& path.len() > 0
    &&& forall|k: int| 0 <= k < path.len() ==> image.spec_get_safe((#[trigger] path[k]).0, path[k].1)
    &&& forall|k: int| 0 < k < path.len() ==> adjacent(diagonal, path[k - 1], #[trigger] path[k])
}

/// Two set pixels are connected when a chain of set pixels leads from the
/// one to the other.
pub open spec fn connected(image: &BinaryImage, diagonal: bool, a: (int, int), b: (int, int)) -> bool {
    exists|path: Seq<(int, int)>|
        #[trigger] is_chain(image, diagonal, path) && path[0] == a && path.last() == b
}

/// The cell of a point.
pub open spec fn cell_of(p: PointI32) -> (int, int) {
    (p.x as int, p.y as int)
}

/// A set pixel is connected with itself.
pub proof fn lemma_connected_self(image: &BinaryImage, diagonal: bool, a: (int, int))
    requires
        image.spec_get_safe(a.0, a.1),
    ensures
        connected(image, diagonal, a, a),
{
    let path = seq![a];
    assert(is_chain(image, diagonal, path));
    assert(path[0] == a && path.last() == a);
}

/// Two set pixels that are neighbours are connected.
pub proof fn lemma_connected_step(image: &BinaryImage, diagonal: bool, a: (int, int), b: (int, int))
    requires
        image.spec_get_safe(a.0, a.1),
        image.spec_get_safe(b.0, b.1),
        adjacent(diagonal, a, b),
    ensures
        connected(image, diagonal, a, b),
{
    let path = seq![a, b];
    assert(is_chain(image, diagonal, path));
    assert(path[0] == a && path.last() == b);
}

/// Connection goes both ways.
pub proof fn lemma_connected_sym(image: &BinaryImage, diagonal: bool, a: (int, int), b: (int, int))
    requires
        connected(image, diagonal, a, b),
    ensures
        connected(image, diagonal, b, a),
{
    let path = choose|path: Seq<(int, int)>|
        #[trigger] is_chain(image, diagonal, path) && path[0] == a && path.last() == b;
    let n = path.len() as int;
    let back = Seq::new(path.len(), |k: int| path[n - 1 - k]);
    assert forall|k: int| 0 < k < back.len() implies adjacent(diagonal, back[k - 1], #[trigger] back[k]) by {
        assert(adjacent(diagonal, path[n - 1 - k], path[n - k]));
    }
    assert(is_chain(image, diagonal, back));
    assert(back[0] == b && back.last() == a);
}

/// Connection carries over.
pub proof fn lemma_connected_trans(
    image: &BinaryImage,
    diagonal: bool,
    a: (int, int),
    b: (int, int),
    c: (int, int),
)
    requires
        connected(image, diagonal, a, b),
        connected(image, diagonal, b, c),
    ensures
        connected(image, diagonal, a, c),
{
    let p = choose|path: Seq<(int, int)>|
        #[trigger] is_chain(image, diagonal, path) && path[0] == a && path.last() == b;
    let q = choose|path: Seq<(int, int)>|
        #[trigger] is_chain(image, diagonal, path) && path[0] == b && path.last() == c;
    let r = p + q.subrange(1, q.len() as int);
    assert forall|k: int| 0 <= k < r.len() implies image.spec_get_safe((#[trigger] r[k]).0, r[k].1) by {
        if k < p.len() {
            assert(r[k] == p[k]);
        } else {
            assert(r[k] == q[k - p.len() + 1]);
        }
    }
    assert forall|k: int| 0 < k < r.len() implies adjacent(diagonal, r[k - 1], #[trigger] r[k]) by {
        if k < p.len() {
            assert(r[k] == p[k] && r[k - 1] == p[k - 1]);
        } else if k == p.len() {
            assert(r[k] == q[1] && r[k - 1] == q[0]);
        } else {
            assert(r[k] == q[k - p.len() + 1] && r[k - 1] == q[k - p.len()]);
            assert(adjacent(diagonal, q[k - p.len() + 1 - 1], q[k - p.len() + 1]));
        }
    }
    assert(is_chain(image, diagonal, r));
    assert(r[0] == a);
    if q.len() > 1 {
        assert(r.last() == q[q.len() - 1]);
    } else {
        assert(r.last() == p.last());
    }
}

/// Does the rect of the cluster keep clear of the edge of the image?
pub open spec fn is_interior(hole: &Cluster, image: &BinaryImage) -> bool {
    hole.rect.left != 0 && hole.rect.top != 0 && hole.rect.right != image.width && hole.rect.bottom
        != image.height
}

/// Those of the first `n` clusters whose rect keeps clear of the edge of
/// the image, in order.
pub open spec fn interior_holes(holes: Seq<Cluster>, image: &BinaryImage, n: int) -> Seq<Cluster>
    decreases n,
{
    if n <= 0 {
        Seq::empty()
    } else if is_interior(&holes[n - 1], image) {
        interior_holes(holes, image, n - 1).push(holes[n - 1])
    } else {
        interior_holes(holes, image, n - 1)
    }
}

/// Is the pixel at `(x, y)` a point of one of the first `n` clusters whose
/// rect keeps clear of the edge of the image?
pub open spec fn in_interior_hole(holes: Seq<Cluster>, image: &BinaryImage, n: int, x: int, y: int) -> bool {
    exists|c: int|
        0 <= c < n && is_interior(&holes[c], image) && (#[trigger] holes[c]).points@.contains(
            PointI32 { x: x as i32, y: y as i32 },
        )
}

/// The piece is the image of the cluster on its own rect, with the place
/// of the top left corner of the rect.
pub open spec fn shows_cluster(piece: (BinaryImage, PointI32), hole: Cluster) -> bool {
    &&& piece.0.wf()
    &&& piece.0.width == hole.rect.spec_width()
    &&& piece.0.height == hole.rect.spec_height()
    &&& piece.1.x == hole.rect.left
    &&& piece.1.y == hole.rect.top
    &&& forall|x: int, y: int|
        piece.0.in_bounds(x, y) ==> #[trigger] piece.0.spec_get(x, y) == hole.cells().contains(
            (x + hole.rect.left, y + hole.rect.top),
        )
}

/// The pieces are the shape in `image` with its holes filled, at the
/// origin, and after it every one of `holes` whose rect keeps clear of
/// the edge of the image.
pub open spec fn is_boundaries_of(
    image: &BinaryImage,
    holes: Seq<Cluster>,
    pieces: Seq<(BinaryImage, PointI32)>,
) -> bool {
    &&& pieces.len() == interior_holes(holes, image, holes.len() as int).len() + 1
    &&& pieces[0].1 == (PointI32 { x: 0, y: 0 })
    &&& pieces[0].0.wf()
    &&& pieces[0].0.width == image.width
    &&& pieces[0].0.height == image.height
    &&& forall|x: int, y: int|
        image.in_bounds(x, y) ==> #[trigger] pieces[0].0.spec_get(x, y) == (image.spec_get(x, y)
            || in_interior_hole(holes, image, holes.len() as int, x, y))
    &&& forall|j: int|
        0 <= j < interior_holes(holes, image, holes.len() as int).len() ==> shows_cluster(
            #[trigger] pieces[j + 1],
            interior_holes(holes, image, holes.len() as int)[j],
        )
}

/// The piece lies within the frame of `image`, which is small enough
/// for a walk along its outline.
pub open spec fn piece_fits(image: &BinaryImage, piece: (BinaryImage, PointI32)) -> bool {
    &&& piece.0.wf()
    &&& image.width <= 0x4000_0000
    &&& image.height <= 0x4000_0000
    &&& image.width * image.height < u32::MAX
    &&& piece.0.width * piece.0.height <= image.width * image.height
    &&& 0 <= piece.1.x
    &&& 0 <= piece.1.y
    &&& piece.1.x + piece.0.width <= image.width
    &&& piece.1.y + piece.0.height <= image.height
}

/// Every piece lies within the frame of `image`.
pub open spec fn pieces_fit(image: &BinaryImage, pieces: Seq<(BinaryImage, PointI32)>) -> bool {
    forall|j: int| 0 <= j < pieces.len() ==> piece_fits(image, #[trigger] pieces[j])
}

/// The piece is small enough for a walk along its outline, and lies
/// where the walk, moved to its place, stays within the numbers.
pub open spec fn piece_bounded(piece: (BinaryImage, PointI32)) -> bool {
    &&& piece.0.wf()
    &&& piece.0.width <= 0x4000_0000
    &&& piece.0.height <= 0x4000_0000
    &&& piece.0.width * piece.0.height <= u32::MAX
    &&& -0x4000_0000 <= piece.1.x <= 0x4000_0000 - piece.0.width
    &&& -0x4000_0000 <= piece.1.y <= 0x4000_0000 - piece.0.height
}

/// The points of a path moved by `o`.
pub open spec fn moved(path: Seq<PointI32>, o: PointI32) -> Seq<PointI32> {
    Seq::new(path.len(), |i: int| PointI32 { x: (path[i].x + o.x) as i32, y: (path[i].y + o.y) as i32 })
}

/// The outlines of the first `n` pieces, each moved to the place of its
/// piece; the first piece is walked clockwise, the others
/// counter-clockwise; empty outlines are left out. `None` if one of the
/// walks is given up.
pub open spec fn spec_paths(pieces: Seq<(BinaryImage, PointI32)>, mode: PathSimplifyMode, n: int) -> Option<
    Seq<Seq<PointI32>>,
>
    decreases n,
{
    if n <= 0 {
        Some(Seq::empty())
    } else {
        match spec_paths(pieces, mode, n - 1) {
            None => None,
            Some(before) => match crate::path::paths::spec_image_path(&pieces[n - 1].0, n == 1, mode) {
                None => None,
                Some(p) => if p.len() == 0 {
                    Some(before)
                } else {
                    Some(before.push(moved(p, pieces[n - 1].1)))
                },
            },
        }
    }
}

/// Once a walk is given up, no outlines are handed out.
pub proof fn lemma_paths_none(pieces: Seq<(BinaryImage, PointI32)>, mode: PathSimplifyMode, j: int, n: int)
    requires
        j <= n,
        spec_paths(pieces, mode, j) is None,
    ensures
        spec_paths(pieces, mode, n) is None,
    decreases n - j,
{
    if j < n {
        lemma_paths_none(pieces, mode, j, n - 1);
    }
}

/// The rect of a cluster of pixels inside the frame of an image lies
/// within the frame.
pub proof fn lemma_rect_inside(c: &Cluster, image: &BinaryImage)
    requires
        c.wf(),
        c.points@.len() > 0,
        forall|k: int|
            0 <= k < c.points@.len() ==> image.in_bounds(
                (#[trigger] c.points@[k]).x as int,
                c.points@[k].y as int,
            ),
    ensures
        0 <= c.rect.left < c.rect.right <= image.width,
        0 <= c.rect.top < c.rect.bottom <= image.height,
{
    let pts = c.cells();
    crate::bound::lemma_aabb_tight(pts);
    let i0 = choose|i: int| 0 <= i < pts.len() && (#[trigger] pts[i]).0 == aabb(pts).0;
    let i1 = choose|i: int| 0 <= i < pts.len() && (#[trigger] pts[i]).1 == aabb(pts).1;
    let i2 = choose|i: int| 0 <= i < pts.len() && (#[trigger] pts[i]).0 + 1 == aabb(pts).2;
    let i3 = choose|i: int| 0 <= i < pts.len() && (#[trigger] pts[i]).1 + 1 == aabb(pts).3;
    assert(image.in_bounds(c.points@[i0].x as int, c.points@[i0].y as int));
    assert(image.in_bounds(c.points@[i1].x as int, c.points@[i1].y as int));
    assert(image.in_bounds(c.points@[i2].x as int, c.points@[i2].y as int));
    assert(image.in_bounds(c.points@[i3].x as int, c.points@[i3].y as int));
}

/// A diagonal bridge at `(x, y)`: a block two pixels wide and three high
/// whose middle row is set and whose top and bottom rows each have one
/// pixel set, on opposite sides.
pub open spec fn is_bridge(f: spec_fn(int, int) -> bool, x: int, y: int) -> bool {
    f(x, y) != f(x + 1, y) && f(x, y + 1) && f(x + 1, y + 1) && f(x, y + 2) != f(x + 1, y + 2)
        && f(x, y) == f(x + 1, y + 2)
}

/// The pixel at which the bridge at `(x, y)`, in an image `w` wide, is
/// broken: the right pixel of its middle row where the pixel right of
/// that is set; else the left one where the pixel left of that is set.
pub open spec fn bridge_pixel(f: spec_fn(int, int) -> bool, w: int, x: int, y: int) -> Option<
    (int, int),
> {
    if is_bridge(f, x, y) {
        if x < w - 2 && f(x + 2, y + 1) {
            Some((x + 1, y + 1))
        } else if x > 0 && f(x - 1, y + 1) {
            Some((x, y + 1))
        } else {
            None
        }
    } else {
        None
    }
}

/// The pixel at which the first bridge that can be broken is broken,
/// among the first `n` places looked at, row by row.
pub open spec fn first_bridge(f: spec_fn(int, int) -> bool, w: int, n: int) -> Option<(int, int)>
    decreases n,
{
    if n <= 0 || w < 2 {
        None
    } else {
        match first_bridge(f, w, n - 1) {
            Some(p) => Some(p),
            None => bridge_pixel(f, w, (n - 1) % (w - 1), (n - 1) / (w - 1)),
        }
    }
}

/// The pixel at which an image `w` wide and `h` high is broken.
pub open spec fn spec_break_at(f: spec_fn(int, int) -> bool, w: int, h: int) -> Option<(int, int)> {
    if w < 2 || h < 3 {
        None
    } else {
        first_bridge(f, w, (w - 1) * (h - 2))
    }
}

/// Two images that agree on every pixel are broken at the same pixel.
pub proof fn lemma_first_bridge_congruent(
    f: spec_fn(int, int) -> bool,
    g: spec_fn(int, int) -> bool,
    w: int,
    h: int,
    n: int,
)
    requires
        2 <= w,
        3 <= h,
        0 <= n <= (w - 1) * (h - 2),
        forall|x: int, y: int| 0 <= x < w && 0 <= y < h ==> #[trigger] f(x, y) == g(x, y),
    ensures
        first_bridge(f, w, n) == first_bridge(g, w, n),
    decreases n,
{
    if n > 0 {
        lemma_first_bridge_congruent(f, g, w, h, n - 1);
        crate::grid::lemma_index_to_cell(n - 1, w - 1, h - 2);
        let x = (n - 1) % (w - 1);
        let y = (n - 1) / (w - 1);
        assert(f(x, y) == g(x, y));
        assert(f(x + 1, y) == g(x + 1, y));
        assert(f(x, y + 1) == g(x, y + 1));
        assert(f(x + 1, y + 1) == g(x + 1, y + 1));
        assert(f(x, y + 2) == g(x, y + 2));
        assert(f(x + 1, y + 2) == g(x + 1, y + 2));
        if x < w - 2 {
            assert(f(x + 2, y + 1) == g(x + 2, y + 1));
        }
        if x > 0 {
            assert(f(x - 1, y + 1) == g(x - 1, y + 1));
        }
    }
}

/// A bridge that is found at `(x, y)` after none was found before it is
/// the first: the image is broken there, whatever follows.
pub proof fn lemma_bridge_ahead(f: spec_fn(int, int) -> bool, w: int, h: int, x: int, y: int)
    requires
        2 <= w,
        3 <= h,
        0 <= x < w - 1,
        0 <= y < h - 2,
        first_bridge(f, w, cell_index(x, y, w - 1)) is None,
    ensures
        first_bridge(f, w, cell_index(x, y, w - 1) + 1) == bridge_pixel(f, w, x, y),
        bridge_pixel(f, w, x, y) is Some ==> spec_break_at(f, w, h) == bridge_pixel(f, w, x, y),
{
    crate::grid::lemma_cell_of_index(x, y, w - 1);
    let n = cell_index(x, y, w - 1);
    assert(n >= 0) by (nonlinear_arith)
        requires
            n == y * (w - 1) + x,
            0 <= x,
            0 <= y,
            w >= 2,
    ;
    assert(n + 1 <= (w - 1) * (h - 2)) by (nonlinear_arith)
        requires
            n == y * (w - 1) + x,
            0 <= x < w - 1,
            0 <= y < h - 2,
    ;
    if bridge_pixel(f, w, x, y) is Some {
        lemma_first_bridge_stays(f, w, n + 1, (w - 1) * (h - 2));
    }
}

/// Once a bridge is found, it stays the first.
pub proof fn lemma_first_bridge_stays(f: spec_fn(int, int) -> bool, w: int, n: int, m: int)
    requires
        n <= m,
        first_bridge(f, w, n) is Some,
    ensures
        first_bridge(f, w, m) == first_bridge(f, w, n),
    decreases m - n,
{
    if n < m {
        lemma_first_bridge_stays(f, w, n, m - 1);
    }
}

/// The point `p` is a point of `part` moved by `o`.
pub open spec fn moved_in(part: Cluster, o: PointI32, p: PointI32) -> bool {
    exists|t: int|
        0 <= t < part.points@.len() && p.x == (#[trigger] part.points@[t]).x + o.x && p.y
            == part.points@[t].y + o.y
}

/// No point is held by two of the clusters from the one of index `base`
/// on.
pub open spec fn apart(pieces: Seq<Cluster>, base: int) -> bool {
    forall|c1: int, k1: int, c2: int, k2: int|
        base <= c1 < pieces.len() && 0 <= k1 < pieces[c1].points@.len() && base <= c2
            < pieces.len() && 0 <= k2 < pieces[c2].points@.len()
            && #[trigger] pieces[c1].points@[k1] == #[trigger] pieces[c2].points@[k2] ==> c1 == c2
}

impl Default for Cluster {
    fn default() -> (c: Self)
        ensures
            c.points@.len() == 0,
            c.rect == BoundingRect::spec_zero(),
            c.wf(),
    {
        Cluster { points: Vec::new(), rect: BoundingRect::default() }
    }
}

impl Default for Clusters {
    fn default() -> (c: Self)
        ensures
            c.clusters@.len() == 0,
            c.rect == BoundingRect::spec_zero(),
    {
        Clusters { clusters: Vec::new(), rect: BoundingRect::default() }
    }
}

impl Cluster {
    /// The cells of the cluster's points, in order.
    pub open spec fn cells(&self) -> Seq<(int, int)> {
        cells_of(self.points@)
    }

    /// The rect is the tight bounding box of the points.
    pub open spec fn wf(&self) -> bool {
        self.rect.is_aabb_of(self.cells())
    }

    /// Every point lies on a set pixel of `image`.
    pub open spec fn within(&self, image: &BinaryImage) -> bool {
        forall|k: int|
            0 <= k < self.points@.len() ==> image.spec_get_safe(
                (#[trigger] self.points@[k]).x as int,
                self.points@[k].y as int,
            )
    }

    pub fn iter(&self) -> (it: core::slice::Iter<'_, PointI32>)
        ensures
            into_iter_elts(it) == self.points@,
    {
        broadcast use vstd::std_specs::slice::axiom_spec_slice_iter;

        let it = self.points.iter();
        proof {
            assert(self.points@.as_ref().unref() =~= self.points@);
        }
        it
    }

    /// Appends a point and grows the rect to include it.
    pub fn add(&mut self, pos: PointI32)
        requires
            pos.x < i32::MAX,
            pos.y < i32::MAX,
        ensures
            final(self).points@ == old(self).points@.push(pos),
            final(self).rect.as_ints() == old(self).rect.spec_add_x_y(pos.x as int, pos.y as int),
            old(self).wf() ==> final(self).wf(),
    {
        self.points.push(pos);
        self.rect.add_x_y(pos.x, pos.y);
        proof {
            if old(self).wf() {
                old(self).rect.lemma_add_keeps_aabb(old(self).cells(), pos.x as int, pos.y as int);
                assert(self.cells() =~= old(self).cells().push((pos.x as int, pos.y as int)));
            }
        }
    }

    /// The image of the cluster on its own rect: as large as the rect,
    /// with the pixels of the points set.
    pub fn to_binary_image(&self) -> (image: BinaryImage)
        requires
            self.wf(),
            self.rect.spec_width() * self.rect.spec_height() <= usize::MAX,
        ensures
            image.wf(),
            image.width == self.rect.spec_width(),
            image.height == self.rect.spec_height(),
            forall|x: int, y: int|
                image.in_bounds(x, y) ==> #[trigger] image.spec_get(x, y) == self.cells().contains(
                    (x + self.rect.left, y + self.rect.top),
                ),
    {
        proof {
            if self.points@.len() > 0 {
                crate::bound::lemma_aabb_tight(self.cells());
            }
        }
        let w: usize = (self.rect.right as i64 - self.rect.left as i64) as usize;
        let h: usize = (self.rect.bottom as i64 - self.rect.top as i64) as usize;
        let mut image = BinaryImage::new_w_h(w, h);
        let n = self.points.len();
        let mut i: usize = 0;
        while i < n
            invariant
                i <= n,
                n == self.points@.len(),
                self.wf(),
                image.wf(),
                image.width == w,
                image.height == h,
                w == self.rect.spec_width(),
                h == self.rect.spec_height(),
                forall|x: int, y: int|
                    image.in_bounds(x, y) ==> #[trigger] image.spec_get(x, y) == self.cells().subrange(
                        0,
                        i as int,
                    ).contains((x + self.rect.left, y + self.rect.top)),
            decreases n - i,
        {
            let p = self.points[i];
            proof {
                crate::bound::lemma_aabb_tight(self.cells());
                assert(self.cells()[i as int] == (p.x as int, p.y as int));
            }
            let x: usize = (p.x as i64 - self.rect.left as i64) as usize;
            let y: usize = (p.y as i64 - self.rect.top as i64) as usize;
            proof {
                image.lemma_in_store(x as int, y as int);
            }
            let ghost before = image;
            image.set_pixel(x, y, true);
            proof {
                let prev = self.cells().subrange(0, i as int);
                let next = self.cells().subrange(0, i + 1);
                assert(next =~= prev.push(self.cells()[i as int]));
                assert forall|x2: int, y2: int| image.in_bounds(x2, y2) implies #[trigger] image.spec_get(
                    x2,
                    y2,
                ) == next.contains((x2 + self.rect.left, y2 + self.rect.top)) by {
                    let c = (x2 + self.rect.left, y2 + self.rect.top);
                    if x2 == x && y2 == y {
                        assert(next[i as int] == c);
                    } else {
                        if prev.contains(c) {
                            let k = choose|k: int| 0 <= k < prev.len() && prev[k] == c;
                            assert(next[k] == c);
                        }
                        if next.contains(c) {
                            let k = choose|k: int| 0 <= k < next.len() && next[k] == c;
                            assert(k < i);
                            assert(prev[k] == c);
                        }
                    }
                }
            }
            i += 1;
        }
        assert(self.cells().subrange(0, n as int) =~= self.cells());
        image
    }

    /// Does the cluster hold the pixel at `(x, y)` of its own image?
    pub open spec fn holds(&self, x: int, y: int) -> bool {
        0 <= x < self.rect.spec_width() && 0 <= y < self.rect.spec_height()
            && self.cells().contains((x + self.rect.left, y + self.rect.top))
    }

    /// A boundary pixel of the cluster is a pixel of it that has a pixel
    /// outside the cluster above, below, left or right of it.
    pub open spec fn on_boundary(&self, x: int, y: int) -> bool {
        self.holds(x, y) && (!self.holds(x - 1, y) || !self.holds(x + 1, y) || !self.holds(
            x,
            y - 1,
        ) || !self.holds(x, y + 1))
    }

    /// The number of boundary pixels of the cluster.
    pub open spec fn boundary_count(&self) -> nat {
        crate::grid::raster_filter(
            self.rect.spec_width(),
            self.rect.spec_width() * self.rect.spec_height(),
            |x: int, y: int| self.on_boundary(x, y),
        ).len()
    }

    /// A cluster has no more boundary pixels than points.
    pub proof fn lemma_boundary_no_longer(&self)
        ensures
            self.boundary_count() <= self.points@.len(),
    {
        let w = self.rect.spec_width();
        let h = self.rect.spec_height();
        let f = |x: int, y: int| self.on_boundary(x, y);
        let b = crate::grid::raster_filter(w, w * h, f);
        if w > 0 && w * h >= 0 {
            crate::grid::lemma_raster_filter_members(w, w * h, f);
            crate::grid::lemma_raster_filter_distinct(w, w * h, f);
            let left = self.rect.left as int;
            let top = self.rect.top as int;
            let moved = Seq::new(b.len(), |k: int| (b[k].0 + left, b[k].1 + top));
            assert(moved.no_duplicates()) by {
                assert forall|i: int, j: int|
                    0 <= i < moved.len() && 0 <= j < moved.len() && i != j implies moved[i]
                    != moved[j] by {
                    assert(b[i] != b[j]);
                }
            }
            assert forall|k: int| 0 <= k < moved.len() implies self.cells().contains(
                #[trigger] moved[k],
            ) by {
                assert(f(b[k].0, b[k].1));
            }
            lemma_no_longer(moved, self.cells());
        }
    }

    /// The boundary pixels of the cluster, row by row, in the coordinates
    /// of the cluster's own image.
    pub fn boundary(&self) -> (list: Vec<PointI32>)
        requires
            self.wf(),
            self.rect.spec_width() <= i32::MAX,
            self.rect.spec_height() <= i32::MAX,
            self.rect.spec_width() * self.rect.spec_height() <= usize::MAX,
        ensures
            list@ == crate::shape::geometry::points_of(
                crate::grid::raster_filter(
                    self.rect.spec_width(),
                    self.rect.spec_width() * self.rect.spec_height(),
                    |x: int, y: int| self.on_boundary(x, y),
                ),
            ),
            list@.len() <= self.rect.spec_width() * self.rect.spec_height(),
            list@.len() <= self.points@.len(),
    {
        let image = self.to_binary_image();
        let list = crate::shape::geometry::Shape::image_boundary_list(&image);
        proof {
            self.lemma_boundary_no_longer();
            let w = image.width as int;
            let h = image.height as int;
            let n = image.width * image.height;
            let f = |x: int, y: int| crate::shape::geometry::is_boundary(&image, x, y);
            let g = |x: int, y: int| self.on_boundary(x, y);
            lemma_filter_len(w, n, f);
            if w > 0 {
                assert forall|x: int, y: int|
                    0 <= x < w && 0 <= y && cell_index(x, y, w) < n implies #[trigger] f(x, y) == g(
                    x,
                    y,
                ) by {
                    assert(y < h) by (nonlinear_arith)
                        requires
                            y * w + x < w * h,
                            0 <= x < w,
                            0 <= y,
                    ;
                    assert(image.in_bounds(x, y));
                    assert(image.spec_get(x, y) == self.holds(x, y));
                    assert(image.spec_get_safe(x - 1, y) == self.holds(x - 1, y)) by {
                        if image.in_bounds(x - 1, y) {
                            assert(image.spec_get(x - 1, y) == self.holds(x - 1, y));
                        }
                    }
                    assert(image.spec_get_safe(x + 1, y) == self.holds(x + 1, y)) by {
                        if image.in_bounds(x + 1, y) {
                            assert(image.spec_get(x + 1, y) == self.holds(x + 1, y));
                        }
                    }
                    assert(image.spec_get_safe(x, y - 1) == self.holds(x, y - 1)) by {
                        if image.in_bounds(x, y - 1) {
                            assert(image.spec_get(x, y - 1) == self.holds(x, y - 1));
                        }
                    }
                    assert(image.spec_get_safe(x, y + 1) == self.holds(x, y + 1)) by {
                        if image.in_bounds(x, y + 1) {
                            assert(image.spec_get(x, y + 1) == self.holds(x, y + 1));
                        }
                    }
                }
                crate::grid::lemma_raster_filter_congruent(w, n, f, g);
            }
        }
        list
    }

    /// Moves the cluster by `o`.
    pub fn offset(&mut self, o: PointI32)
        requires
            forall|i: int|
                0 <= i < old(self).points@.len() ==> crate::point::fits_i32(
                    (#[trigger] old(self).points@[i]).x + o.x,
                ) && crate::point::fits_i32(old(self).points@[i].y + o.y),
            crate::point::fits_i32(old(self).rect.left + o.x),
            crate::point::fits_i32(old(self).rect.right + o.x),
            crate::point::fits_i32(old(self).rect.top + o.y),
            crate::point::fits_i32(old(self).rect.bottom + o.y),
        ensures
            final(self).points@.len() == old(self).points@.len(),
            forall|i: int|
                0 <= i < old(self).points@.len() ==> (#[trigger] final(self).points@[i]).x == old(self).points@[i].x + o.x && final(self).points@[i].y == old(self).points@[i].y + o.y,
            final(self).rect.left == old(self).rect.left + o.x,
            final(self).rect.right == old(self).rect.right + o.x,
            final(self).rect.top == old(self).rect.top + o.y,
            final(self).rect.bottom == old(self).rect.bottom + o.y,
            old(self).wf() && old(self).points@.len() > 0 ==> final(self).wf(),
    {
        let n = self.points.len();
        let mut i: usize = 0;
        while i < n
            invariant
                i <= n,
                n == self.points@.len(),
                n == old(self).points@.len(),
                self.rect == old(self).rect,
                forall|k: int|
                    0 <= k < n ==> crate::point::fits_i32((#[trigger] old(self).points@[k]).x + o.x)
                        && crate::point::fits_i32(old(self).points@[k].y + o.y),
                forall|k: int|
                    0 <= k < i ==> (#[trigger] self.points@[k]).x == old(self).points@[k].x + o.x
                        && self.points@[k].y == old(self).points@[k].y + o.y,
                forall|k: int| i <= k < n ==> self.points@[k] == old(self).points@[k],
            decreases n - i,
        {
            let p = self.points[i];
            assert(crate::point::fits_i32(old(self).points@[i as int].x + o.x));
            self.points.set(i, PointI32 { x: p.x + o.x, y: p.y + o.y });
            i += 1;
        }
        self.rect.translate(o);
        proof {
            if old(self).wf() && old(self).points@.len() > 0 {
                crate::bound::lemma_aabb_shifted(old(self).cells(), o.x as int, o.y as int);
                assert(self.cells() =~= crate::bound::shifted(
                    old(self).cells(),
                    o.x as int,
                    o.y as int,
                ));
            }
        }
    }

    /// The number of points.
    pub fn size(&self) -> (n: usize)
        ensures
            n == self.points@.len(),
    {
        self.points.len()
    }
}

/// The set pixels among the first `n + 1` pixels are those among the first
/// `n`, and the pixel of index `n` where it is set.
pub proof fn lemma_set_cells_step(image: &BinaryImage, x: int, y: int)
    requires
        image.in_bounds(x, y),
    ensures
        set_cells(image, cell_index(x, y, image.width as int) + 1) == (if image.spec_get(x, y) {
            set_cells(image, cell_index(x, y, image.width as int)).push((x, y))
        } else {
            set_cells(image, cell_index(x, y, image.width as int))
        }),
{
    crate::grid::lemma_raster_filter_step(
        image.width as int,
        x,
        y,
        |x: int, y: int| image.spec_get(x, y),
    );
}

/// A filter hands out no more cells than it was given.
pub proof fn lemma_filter_len(w: int, n: int, f: spec_fn(int, int) -> bool)
    requires
        0 <= n,
    ensures
        crate::grid::raster_filter(w, n, f).len() <= n,
    decreases n,
{
    if n > 0 && w > 0 {
        lemma_filter_len(w, n - 1, f);
    }
}

/// A list of distinct items, each of them in `whole`, is no longer than
/// `whole`.
pub proof fn lemma_no_longer<T>(sub: Seq<T>, whole: Seq<T>)
    requires
        sub.no_duplicates(),
        forall|k: int| 0 <= k < sub.len() ==> whole.contains(#[trigger] sub[k]),
    ensures
        sub.len() <= whole.len(),
{
    broadcast use vstd::seq_lib::seq_to_set_is_finite;

    sub.unique_seq_to_set();
    whole.lemma_cardinality_of_set();
    assert(sub.to_set().subset_of(whole.to_set())) by {
        assert forall|p: T| sub.to_set().contains(p) implies whole.to_set().contains(p) by {
            let k = choose|k: int| 0 <= k < sub.len() && sub[k] == p;
            assert(whole.contains(sub[k]));
        }
    }
    vstd::set_lib::lemma_len_subset(sub.to_set(), whole.to_set());
}

/// A list of distinct points, each of them in `whole` but none of them
/// `r`, which is in `whole` too, is shorter than `whole`.
pub proof fn lemma_fewer_points(sub: Seq<PointI32>, whole: Seq<PointI32>, r: PointI32)
    requires
        sub.no_duplicates(),
        forall|k: int| 0 <= k < sub.len() ==> whole.contains(#[trigger] sub[k]) && sub[k] != r,
        whole.contains(r),
    ensures
        sub.len() < whole.len(),
{
    broadcast use vstd::seq_lib::seq_to_set_is_finite;

    sub.unique_seq_to_set();
    whole.lemma_cardinality_of_set();
    let s = whole.to_set();
    let t = s.remove(r);
    assert(s.contains(r));
    assert(sub.to_set().subset_of(t)) by {
        assert forall|p: PointI32| sub.to_set().contains(p) implies t.contains(p) by {
            let k = choose|k: int| 0 <= k < sub.len() && sub[k] == p;
            assert(whole.contains(sub[k]));
        }
    }
    vstd::set_lib::lemma_len_subset(sub.to_set(), t);
}

impl Cluster {
    /// The cluster is sound and its rect is small enough for its image
    /// to be labelled.
    pub open spec fn breakable(&self) -> bool {
        &&& self.wf()
        &&& self.rect.spec_width() <= i32::MAX
        &&& self.rect.spec_height() <= i32::MAX
        &&& self.rect.spec_width() * self.rect.spec_height() < u32::MAX
    }

    /// The image of the cluster has no diagonal bridge at which it is
    /// broken.
    pub open spec fn unbroken(&self) -> bool {
        spec_break_at(
            |x: int, y: int| self.holds(x, y),
            self.rect.spec_width(),
            self.rect.spec_height(),
        ) is None
    }

    /// `self` is a sound cluster made of points of `whole`, and not empty
    /// unless `whole` is.
    pub open spec fn is_piece_of(&self, whole: &Cluster) -> bool {
        &&& self.wf()
        &&& forall|k: int|
            0 <= k < self.points@.len() ==> whole.points@.contains(#[trigger] self.points@[k])
        &&& whole.points@.len() > 0 ==> self.points@.len() > 0
    }

    /// The shape in `image` with its holes filled, at the origin, and
    /// after it every hole with the place of its top left corner. A hole
    /// is a cluster of unset pixels, joined along the four directions,
    /// whose rect keeps clear of the edge of the image.
    pub fn image_to_boundaries(image: &BinaryImage) -> (pieces: Vec<(BinaryImage, PointI32)>)
        requires
            image.wf(),
            image.width <= 0x4000_0000,
            image.height <= 0x4000_0000,
            image.width * image.height < u32::MAX,
            image.spec_len() + 7 <= usize::MAX,
        ensures
            exists|negative: BinaryImage, holes: Clusters|
                {
                    &&& negative.width == image.width
                    &&& negative.height == image.height
                    &&& forall|x: int, y: int|
                        image.in_bounds(x, y) ==> #[trigger] negative.spec_get(x, y)
                            == !image.spec_get(x, y)
                    &&& holes.partitions(&negative)
                    &&& holes.components(&negative, false)
                    &&& lists_of(holes.clusters@) == filled(
                        spec_labelled(
                            shown(&negative),
                            image.width as int,
                            false,
                            image.width * image.height,
                        ).0,
                    )
                    &&& is_boundaries_of(image, holes.clusters@, pieces@)
                },
            pieces_fit(image, pieces@),
    {
        let mut outer = image.duplicate();
        let negative = image.negative();
        let holes = negative.to_clusters(false);
        let mut inner: Vec<(BinaryImage, PointI32)> = Vec::new();
        let count = holes.clusters.len();
        let ghost all = holes.clusters@;
        let mut k: usize = 0;
        while k < count
            invariant
                k <= count,
                count == holes.clusters@.len(),
                all == holes.clusters@,
                outer.wf(),
                outer.width == image.width,
                outer.height == image.height,
                image.wf(),
                image.width <= 0x4000_0000,
                image.height <= 0x4000_0000,
                image.width * image.height < u32::MAX,
                forall|c: int|
                    0 <= c < holes.clusters@.len() ==> (#[trigger] holes.clusters@[c]).wf()
                        && holes.clusters@[c].points@.len() > 0 && forall|t: int|
                        0 <= t < holes.clusters@[c].points@.len() ==> image.in_bounds(
                            (#[trigger] holes.clusters@[c].points@[t]).x as int,
                            holes.clusters@[c].points@[t].y as int,
                        ),
                forall|x: int, y: int|
                    image.in_bounds(x, y) ==> #[trigger] outer.spec_get(x, y) == (image.spec_get(
                        x,
                        y,
                    ) || in_interior_hole(all, image, k as int, x, y)),
                inner@.len() == interior_holes(all, image, k as int).len(),
                forall|j: int|
                    0 <= j < inner@.len() ==> shows_cluster(
                        #[trigger] inner@[j],
                        interior_holes(all, image, k as int)[j],
                    ),
                forall|j: int| 0 <= j < inner@.len() ==> piece_fits(image, #[trigger] inner@[j]),
            decreases count - k,
        {
            let hole = &holes.clusters[k];
            proof {
                lemma_rect_inside(hole, image);
                assert(hole.rect.spec_width() * hole.rect.spec_height() <= image.width
                    * image.height) by (nonlinear_arith)
                    requires
                        0 <= hole.rect.spec_width() <= image.width,
                        0 <= hole.rect.spec_height() <= image.height,
                ;
            }
            let ghost before = outer;
            if !(hole.rect.left == 0 || hole.rect.top == 0 || hole.rect.right as usize
                == image.width || hole.rect.bottom as usize == image.height) {
                let n = hole.points.len();
                let mut t: usize = 0;
                while t < n
                    invariant
                        t <= n,
                        n == hole.points@.len(),
                        image.width <= 0x4000_0000,
                        image.height <= 0x4000_0000,
                        outer.wf(),
                        before.wf(),
                        outer.width == image.width,
                        outer.height == image.height,
                        before.width == image.width,
                        before.height == image.height,
                        forall|u: int|
                            0 <= u < hole.points@.len() ==> image.in_bounds(
                                (#[trigger] hole.points@[u]).x as int,
                                hole.points@[u].y as int,
                            ),
                        forall|x: int, y: int|
                            image.in_bounds(x, y) ==> #[trigger] outer.spec_get(x, y) == (
                            before.spec_get(x, y) || hole.points@.subrange(0, t as int).contains(
                                PointI32 { x: x as i32, y: y as i32 },
                            )),
                    decreases n - t,
                {
                    let p = hole.points[t];
                    let ghost prev = outer;
                    proof {
                        assert(image.in_bounds(
                            hole.points@[t as int].x as int,
                            hole.points@[t as int].y as int,
                        ));
                        outer.lemma_in_store(p.x as int, p.y as int);
                    }
                    outer.set_pixel(p.x as usize, p.y as usize, true);
                    proof {
                        let head = hole.points@.subrange(0, t as int);
                        let more = hole.points@.subrange(0, t + 1);
                        assert(more =~= head.push(p));
                        assert forall|x: int, y: int| image.in_bounds(x, y) implies #[trigger] outer.spec_get(
                            x,
                            y,
                        ) == (before.spec_get(x, y) || more.contains(
                            PointI32 { x: x as i32, y: y as i32 },
                        )) by {
                            let q = PointI32 { x: x as i32, y: y as i32 };
                            assert(prev.in_bounds(x, y));
                            if head.contains(q) {
                                let u = choose|u: int| 0 <= u < head.len() && head[u] == q;
                                assert(more[u] == q);
                            }
                            if more.contains(q) && q != p {
                                let u = choose|u: int| 0 <= u < more.len() && more[u] == q;
                                assert(head[u] == q);
                            }
                            if q == p {
                                assert(more[t as int] == q);
                            }
                        }
                    }
                    t += 1;
                }
                let piece = (hole.to_binary_image(), PointI32 { x: hole.rect.left, y: hole.rect.top });
                inner.push(piece);
                proof {
                    assert(hole.points@.subrange(0, n as int) =~= hole.points@);
                    assert(shows_cluster(inner@[inner@.len() - 1], *hole));
                }
            }
            proof {
                let found = interior_holes(all, image, k + 1);
                assert forall|j: int| 0 <= j < inner@.len() implies shows_cluster(
                    #[trigger] inner@[j],
                    found[j],
                ) by {
                    if j < interior_holes(all, image, k as int).len() {
                        assert(found[j] == interior_holes(all, image, k as int)[j]);
                    }
                }
                assert forall|x: int, y: int| image.in_bounds(x, y) implies #[trigger] outer.spec_get(
                    x,
                    y,
                ) == (image.spec_get(x, y) || in_interior_hole(all, image, k + 1, x, y)) by {
                    let q = PointI32 { x: x as i32, y: y as i32 };
                    if in_interior_hole(all, image, k as int, x, y) {
                        let c = choose|c: int|
                            0 <= c < k && is_interior(&all[c], image) && (#[trigger] all[c]).points@.contains(
                                q,
                            );
                        assert(0 <= c < k + 1 && is_interior(&all[c], image) && all[c].points@.contains(
                            q,
                        ));
                    }
                    if in_interior_hole(all, image, k + 1, x, y) {
                        let c = choose|c: int|
                            0 <= c < k + 1 && is_interior(&all[c], image) && (#[trigger] all[c]).points@.contains(
                                q,
                            );
                        if c < k {
                            assert(in_interior_hole(all, image, k as int, x, y));
                        }
                    }
                    if is_interior(hole, image) && hole.points@.contains(q) {
                        assert(all[k as int].points@.contains(q));
                    }
                }
            }
            k += 1;
        }
        let mut pieces: Vec<(BinaryImage, PointI32)> = Vec::new();
        pieces.push((outer, PointI32 { x: 0, y: 0 }));
        let ghost first = pieces@;
        let ghost rest = inner@;
        pieces.append(&mut inner);
        proof {
            let found = interior_holes(all, image, all.len() as int);
            assert(pieces@.len() == found.len() + 1);
            assert(pieces@[0] == first[0]);
            assert forall|j: int| 0 <= j < found.len() implies shows_cluster(
                #[trigger] pieces@[j + 1],
                found[j],
            ) by {
                assert(pieces@[j + 1] == rest[j]);
            }
            assert(piece_fits(image, pieces@[0])) by {
                assert(pieces@[0].0.width * pieces@[0].0.height == image.width * image.height);
            }
            assert forall|j: int| 0 <= j < pieces@.len() implies piece_fits(image, #[trigger] pieces@[j]) by {
                if j > 0 {
                    assert(pieces@[j] == rest[j - 1]);
                }
            }
            assert(is_boundaries_of(image, holes.clusters@, pieces@));
        }
        pieces
    }

    /// The outline of every piece, the first walked clockwise and the
    /// others counter-clockwise, each moved to the place of its piece.
    /// Empty paths are left out. `None` if a walk is given up.
    pub fn pieces_to_paths(pieces: &Vec<(BinaryImage, PointI32)>, mode: PathSimplifyMode) -> (r:
        Option<Vec<PathI32>>)
        requires
            forall|j: int| 0 <= j < pieces@.len() ==> piece_bounded(#[trigger] pieces@[j]),
        ensures
            r is Some <==> spec_paths(pieces@, mode, pieces@.len() as int) is Some,
            r matches Some(paths) ==> paths@.len() == spec_paths(
                pieces@,
                mode,
                pieces@.len() as int,
            )->0.len() && forall|i: int|
                0 <= i < paths@.len() ==> (#[trigger] paths@[i]).path@ == spec_paths(
                    pieces@,
                    mode,
                    pieces@.len() as int,
                )->0[i],
            r matches Some(paths) ==> forall|i: int|
                0 <= i < paths@.len() ==> (#[trigger] paths@[i]).path@.len() > 0,
    {
        let mut paths: Vec<PathI32> = Vec::new();
        let total = pieces.len();
        let mut j: usize = 0;
        while j < total
            invariant
                j <= total,
                total == pieces@.len(),
                forall|i: int| 0 <= i < pieces@.len() ==> piece_bounded(#[trigger] pieces@[i]),
                spec_paths(pieces@, mode, j as int) is Some,
                paths@.len() == spec_paths(pieces@, mode, j as int)->0.len(),
                forall|i: int|
                    0 <= i < paths@.len() ==> (#[trigger] paths@[i]).path@ == spec_paths(
                        pieces@,
                        mode,
                        j as int,
                    )->0[i],
                forall|i: int| 0 <= i < paths@.len() ==> (#[trigger] paths@[i]).path@.len() > 0,
            decreases total - j,
        {
            let offset = pieces[j].1;
            assert(piece_bounded(pieces@[j as int]));
            let ghost so_far = spec_paths(pieces@, mode, j as int)->0;
            match PathI32::image_to_path_bounded(&pieces[j].0, j == 0, mode) {
                None => {
                    proof {
                        lemma_paths_none(pieces@, mode, j + 1, total as int);
                    }
                    return None;
                },
                Some(found) => {
                    let mut path = found;
                    let ghost plain = path.path@;
                    path.offset(&offset);
                    if !path.is_empty() {
                        proof {
                            assert(path.path@ =~= moved(plain, offset));
                        }
                        paths.push(path);
                    }
                },
            }
            j += 1;
        }
        Some(paths)
    }

    /// The outlines of the shape in `image`: first that of the shape
    /// with its holes filled, walked clockwise, then that of each hole,
    /// walked counter-clockwise and moved to the place of the hole. A
    /// hole is a cluster of unset pixels that does not touch the edge of
    /// the image. Empty paths are left out. `None` if a walk is given up.
    pub fn image_to_paths(image: &BinaryImage, mode: PathSimplifyMode) -> (r: Option<Vec<PathI32>>)
        requires
            image.wf(),
            image.width <= 0x4000_0000,
            image.height <= 0x4000_0000,
            image.width * image.height < u32::MAX,
            image.spec_len() + 7 <= usize::MAX,
        ensures
            exists|negative: BinaryImage, holes: Clusters, pieces: Seq<(BinaryImage, PointI32)>|
                {
                    &&& negative.width == image.width
                    &&& negative.height == image.height
                    &&& forall|x: int, y: int|
                        image.in_bounds(x, y) ==> #[trigger] negative.spec_get(x, y)
                            == !image.spec_get(x, y)
                    &&& holes.partitions(&negative)
                    &&& holes.components(&negative, false)
                    &&& lists_of(holes.clusters@) == filled(
                        spec_labelled(
                            shown(&negative),
                            image.width as int,
                            false,
                            image.width * image.height,
                        ).0,
                    )
                    &&& is_boundaries_of(image, holes.clusters@, pieces)
                    &&& r is Some <==> spec_paths(pieces, mode, pieces.len() as int) is Some
                    &&& r matches Some(paths) ==> paths@.len() == spec_paths(
                        pieces,
                        mode,
                        pieces.len() as int,
                    )->0.len() && forall|i: int|
                        0 <= i < paths@.len() ==> (#[trigger] paths@[i]).path@ == spec_paths(
                            pieces,
                            mode,
                            pieces.len() as int,
                        )->0[i]
                },
            r matches Some(paths) ==> forall|i: int|
                0 <= i < paths@.len() ==> (#[trigger] paths@[i]).path@.len() > 0,
    {
        let pieces = Self::image_to_boundaries(image);
        proof {
            assert forall|j: int| 0 <= j < pieces@.len() implies piece_bounded(#[trigger] pieces@[j]) by {
                assert(piece_fits(image, pieces@[j]));
            }
        }
        Self::pieces_to_paths(&pieces, mode)
    }

    /// Breaks a cluster at its diagonal bridges: the pieces are those
    /// that `broken` names, in its order. Where there are several, each
    /// has five pixels or more.
    pub fn break_cluster(cluster: Cluster) -> (clusters: Clusters)
        requires
            cluster.breakable(),
        ensures
            clusters.clusters@.len() >= 1,
            forall|c: int|
                0 <= c < clusters.clusters@.len() ==> (#[trigger] clusters.clusters@[c]).is_piece_of(
                    &cluster,
                ),
            cluster.unbroken() ==> clusters.clusters@ == seq![cluster],
            apart(clusters.clusters@, 0),
            lists_of(clusters.clusters@) == broken(cluster.points@, cluster.points@.len()),
            clusters.clusters@.len() > 1 ==> forall|c: int|
                0 <= c < clusters.clusters@.len() ==> (#[trigger] clusters.clusters@[c]).points@.len()
                    >= 5,
    {
        let mut clusters = Clusters::default();
        Self::break_cluster_recursive(cluster, &mut clusters);
        proof {
            if clusters.clusters@.len() > 1 {
                assert forall|c: int| 0 <= c < clusters.clusters@.len() implies (
                #[trigger] clusters.clusters@[c]).points@.len() >= 5 by {
                    let one = clusters.clusters@[c];
                    if one.points@ == cluster.points@ {
                        let d = if c == 0 {
                            1int
                        } else {
                            0int
                        };
                        let other = clusters.clusters@[d];
                        assert(other.is_piece_of(&cluster));
                        assert(one.is_piece_of(&cluster));
                        let p = other.points@[0];
                        assert(cluster.points@.contains(p));
                        let k = choose|k: int| 0 <= k < one.points@.len() && one.points@[k] == p;
                        assert(clusters.clusters@[c].points@[k] == clusters.clusters@[d].points@[0]);
                    }
                }
            }
            assert(clusters.clusters@.subrange(0, clusters.clusters@.len() as int)
                =~= clusters.clusters@);
            if cluster.unbroken() {
                assert(clusters.clusters@ =~= seq![cluster]);
            }
        }
        clusters
    }

    /// Looks for a diagonal bridge in the image of the cluster: a block
    /// two pixels wide and three high whose middle row is set and whose
    /// top and bottom rows each have one pixel set, on opposite sides.
    /// At the first one, row by row, that has a set pixel right of its
    /// middle row, the right pixel of the middle row is cleared; else, if
    /// it has a set pixel left of its middle row, the left one. The
    /// result tells whether a pixel was cleared, and which.
    fn break_bridge(image: &mut BinaryImage) -> (cleared: Option<(usize, usize)>)
        requires
            old(image).wf(),
        ensures
            final(image).wf(),
            final(image).width == old(image).width,
            final(image).height == old(image).height,
            cleared is None ==> forall|x: int, y: int|
                old(image).in_bounds(x, y) ==> #[trigger] final(image).spec_get(x, y) == old(image).spec_get(x, y),
            match cleared {
                Some(c) => spec_break_at(
                    |x: int, y: int| old(image).spec_get(x, y),
                    old(image).width as int,
                    old(image).height as int,
                ) == Some((c.0 as int, c.1 as int)),
                None => spec_break_at(
                    |x: int, y: int| old(image).spec_get(x, y),
                    old(image).width as int,
                    old(image).height as int,
                ) is None,
            },
            cleared matches Some(c) ==> old(image).in_bounds(c.0 as int, c.1 as int) && old(image).spec_get(c.0 as int, c.1 as int) && forall|x: int, y: int|
                old(image).in_bounds(x, y) ==> #[trigger] final(image).spec_get(x, y) == (old(image).spec_get(x, y) && !(x == c.0 && y == c.1)),
    {
        if image.width < 2 || image.height < 3 {
            return None;
        }
        let w = image.width;
        let h = image.height;
        let ghost f = |x: int, y: int| old(image).spec_get(x, y);
        let mut y: usize = 0;
        while y < h - 2
            invariant
                y <= h - 2,
                w == image.width,
                h == image.height,
                w >= 2,
                h >= 3,
                image.wf(),
                *image == *old(image),
                f == (|x: int, y: int| old(image).spec_get(x, y)),
                first_bridge(f, w as int, y * (w - 1)) is None,
            decreases h - 2 - y,
        {
            let mut x: usize = 0;
            assert(cell_index(0, y as int, w - 1) == y * (w - 1));
            while x < w - 1
                invariant
                    x <= w - 1,
                    y < h - 2,
                    w == image.width,
                    h == image.height,
                    w >= 2,
                    h >= 3,
                    image.wf(),
                    *image == *old(image),
                    f == (|x: int, y: int| old(image).spec_get(x, y)),
                    first_bridge(f, w as int, cell_index(x as int, y as int, w - 1)) is None,
                decreases w - 1 - x,
            {
                proof {
                    crate::grid::lemma_cell_of_index(x as int, y as int, w - 1);
                    assert(cell_index(x + 1, y as int, w - 1) == cell_index(x as int, y as int, w - 1)
                        + 1);
                    assert(cell_index(x as int, y as int, w - 1) >= 0) by (nonlinear_arith)
                        requires
                            cell_index(x as int, y as int, w - 1) == y * (w - 1) + x,
                            w >= 2,
                    ;
                    lemma_bridge_ahead(f, w as int, h as int, x as int, y as int);
                    image.lemma_in_store(x as int, y as int);
                    image.lemma_in_store(x + 1, y as int);
                    image.lemma_in_store(x as int, y + 1);
                    image.lemma_in_store(x + 1, y + 1);
                    image.lemma_in_store(x as int, y + 2);
                    image.lemma_in_store(x + 1, y + 2);
                    if x < w - 2 {
                        image.lemma_in_store(x + 2, y + 1);
                    }
                    if x > 0 {
                        image.lemma_in_store(x - 1, y + 1);
                    }
                }
                if image.get_pixel(x, y) != image.get_pixel(x + 1, y) && image.get_pixel(x, y + 1)
                    && image.get_pixel(x + 1, y + 1) && image.get_pixel(x, y + 2)
                    != image.get_pixel(x + 1, y + 2) && image.get_pixel(x, y) == image.get_pixel(
                    x + 1,
                    y + 2,
                ) {
                    if x < w - 2 && image.get_pixel(x + 2, y + 1) {
                        image.set_pixel(x + 1, y + 1, false);
                        return Some((x + 1, y + 1));
                    } else if x > 0 && image.get_pixel(x - 1, y + 1) {
                        image.set_pixel(x, y + 1, false);
                        return Some((x, y + 1));
                    }
                }
                x += 1;
            }
            proof {
                assert(cell_index(w - 1, y as int, w - 1) == (y + 1) * (w - 1)) by (nonlinear_arith)
                    requires
                        cell_index(w - 1, y as int, w - 1) == y * (w - 1) + (w - 1),
                ;
            }
            y += 1;
        }
        proof {
            assert((h - 2) * (w - 1) == (w - 1) * (h - 2)) by (nonlinear_arith);
        }
        None
    }

    /// Breaks `cluster` at a diagonal bridge and then each part again,
    /// and appends what cannot be broken to `output`: the pieces that
    /// `broken` names, in its order. A split that leaves a part of fewer
    /// than five pixels is not made.
    pub fn break_cluster_recursive(cluster: Cluster, output: &mut Clusters)
        requires
            cluster.breakable(),
        ensures
            final(output).clusters@.len() > old(output).clusters@.len(),
            forall|c: int|
                0 <= c < old(output).clusters@.len() ==> final(output).clusters@[c] == old(output).clusters@[c],
            forall|c: int|
                old(output).clusters@.len() <= c < final(output).clusters@.len() ==> (
                #[trigger] final(output).clusters@[c]).is_piece_of(&cluster),
            cluster.unbroken() ==> final(output).clusters@ == old(output).clusters@.push(cluster),
            apart(final(output).clusters@, old(output).clusters@.len() as int),
            forall|c: int|
                old(output).clusters@.len() <= c < final(output).clusters@.len() ==> (
                #[trigger] final(output).clusters@[c]).points@.len() >= 5
                    || final(output).clusters@[c].points@ == cluster.points@,
            forall|depth: nat|
                depth >= cluster.points@.len() ==> lists_of(
                    final(output).clusters@.subrange(
                        old(output).clusters@.len() as int,
                        final(output).clusters@.len() as int,
                    ),
                ) == #[trigger] broken(cluster.points@, depth),
        decreases cluster.points@.len(),
    {
        let ghost whole = picture_of(cluster.points@);
        let ghost wide = cluster.rect.spec_width();
        let ghost high = cluster.rect.spec_height();
        proof {
            if cluster.points@.len() > 0 {
                crate::bound::lemma_aabb_tight(cluster.cells());
            }
        }
        let mut image = cluster.to_binary_image();
        let ghost intact = image;
        let cleared = Self::break_bridge(&mut image);
        proof {
            let f = |x: int, y: int| intact.spec_get(x, y);
            let g = |x: int, y: int| cluster.holds(x, y);
            let w = intact.width as int;
            let h = intact.height as int;
            if w >= 2 && h >= 3 {
                assert((w - 1) * (h - 2) >= 0) by (nonlinear_arith)
                    requires
                        w >= 2,
                        h >= 3,
                ;
                assert forall|x: int, y: int| 0 <= x < w && 0 <= y < h implies #[trigger] f(x, y)
                    == g(x, y) by {
                    assert(intact.in_bounds(x, y));
                }
                lemma_first_bridge_congruent(f, g, w, h, (w - 1) * (h - 2));
            }
            assert(cluster.unbroken() == (cleared is None));
            assert(whole =~= g);
            assert(spec_break_at(whole, wide, high) == match cleared {
                Some(c) => Some((c.0 as int, c.1 as int)),
                None => None,
            });
            if let Some(c) = cleared {
                assert(shown(&image) =~= without(whole, (c.0 as int, c.1 as int)));
            }
        }
        let mut broke = cleared.is_some();
        let clusters = image.to_clusters(false);
        let Clusters { clusters: parts, rect: _ } = clusters;
        let mut parts = parts;
        let ghost found = parts@;
        if broke {
            let n = parts.len();
            if n == 0 {
                broke = false;
            } else {
                let mut min = parts[0].size();
                let mut k: usize = 1;
                while k < n
                    invariant
                        1 <= k <= n,
                        n == parts@.len(),
                        forall|j: int| 0 <= j < k ==> min <= (#[trigger] parts@[j]).points@.len(),
                        exists|j: int| 0 <= j < k && min == (#[trigger] parts@[j]).points@.len(),
                    decreases n - k,
                {
                    let s = parts[k].size();
                    if s < min {
                        min = s;
                    }
                    k += 1;
                }
                proof {
                    let lists = lists_of(found);
                    if min < 5 {
                        let j = choose|j: int| 0 <= j < n && min == (#[trigger] parts@[j]).points@.len();
                        assert(lists[j].len() < 5);
                    } else {
                        assert forall|j: int| 0 <= j < lists.len() implies !((#[trigger] lists[j]).len()
                            < 5) by {
                            assert(min <= parts@[j].points@.len());
                        }
                    }
                    assert(has_small(lists) == (min < 5));
                }
                if min < 5 {
                    broke = false;
                }
            }
        }
        if broke {
            let o = PointI32 { x: cluster.rect.left, y: cluster.rect.top };
            let ghost gone = cleared->0;
            let ghost r = PointI32 {
                x: (gone.0 + cluster.rect.left) as i32,
                y: (gone.1 + cluster.rect.top) as i32,
            };
            proof {
                assert(intact.spec_get(gone.0 as int, gone.1 as int));
                assert(cluster.cells().contains((r.x as int, r.y as int)));
                let k = choose|k: int|
                    0 <= k < cluster.cells().len() && cluster.cells()[k] == (r.x as int, r.y as int);
                assert(cluster.points@[k] == r);
            }
            let total = parts.len();
            let ghost base = output.clusters@.len();
            let ghost mut owner: Seq<int> = Seq::empty();
            let mut c: usize = 0;
            proof {
                assert(lists_of(output.clusters@.subrange(base as int, base as int))
                    =~= Seq::<Seq<PointI32>>::empty());
            }
            while c < total
                invariant
                    c <= total,
                    forall|g: nat|
                        g + 1 >= cluster.points@.len() ==> lists_of(
                            output.clusters@.subrange(base as int, output.clusters@.len() as int),
                        ) == #[trigger] broken_parts(lists_of(found), o, c as int, g),
                    !has_small(lists_of(found)),
                    forall|j: int|
                        base <= j < output.clusters@.len() ==> (#[trigger] output.clusters@[j]).points@.len()
                            >= 5,
                    owner.len() == output.clusters@.len() - base,
                    forall|j: int|
                        0 <= j < owner.len() ==> 0 <= #[trigger] owner[j] < c && forall|k: int|
                            0 <= k < output.clusters@[base + j].points@.len() ==> moved_in(
                                found[owner[j]],
                                o,
                                #[trigger] output.clusters@[base + j].points@[k],
                            ),
                    apart(output.clusters@, base as int),
                    forall|c1: int, k1: int, c2: int, k2: int|
                        0 <= c1 < found.len() && 0 <= k1 < found[c1].points@.len() && 0 <= c2
                            < found.len() && 0 <= k2 < found[c2].points@.len()
                            && #[trigger] found[c1].points@[k1]
                            == #[trigger] found[c2].points@[k2] ==> c1 == c2,
                    total == parts@.len(),
                    total == found.len(),
                    total >= 1,
                    cluster.breakable(),
                    cluster.points@.contains(r),
                    o.x == cluster.rect.left,
                    o.y == cluster.rect.top,
                    forall|j: int| c <= j < total ==> parts@[j] == found[j],
                    forall|j: int|
                        0 <= j < found.len() ==> (#[trigger] found[j]).wf() && found[j].points@.len()
                            > 0 && found[j].points@.no_duplicates() && found[j].within(&image),
                    image.width == cluster.rect.spec_width(),
                    image.height == cluster.rect.spec_height(),
                    image.wf(),
                    forall|x: int, y: int|
                        image.in_bounds(x, y) && #[trigger] image.spec_get(x, y)
                            ==> cluster.cells().contains(
                            (x + cluster.rect.left, y + cluster.rect.top),
                        ) && !(x + cluster.rect.left == r.x && y + cluster.rect.top == r.y),
                    output.clusters@.len() >= base + c,
                    base == old(output).clusters@.len(),
                    forall|j: int|
                        0 <= j < base ==> output.clusters@[j] == old(output).clusters@[j],
                    forall|j: int|
                        base <= j < output.clusters@.len() ==> (#[trigger] output.clusters@[j]).is_piece_of(
                            &cluster,
                        ),
                decreases total - c,
            {
                let mut cc = Cluster::default();
                core::mem::swap(&mut parts[c], &mut cc);
                let ghost part = cc;
                proof {
                    assert(part == found[c as int]);
                    crate::bound::lemma_aabb_tight(part.cells());
                    assert forall|k: int| 0 <= k < part.points@.len() implies 0 <= (
                    #[trigger] part.points@[k]).x < image.width && 0 <= part.points@[k].y
                        < image.height && image.spec_get(
                        part.points@[k].x as int,
                        part.points@[k].y as int,
                    ) by {
                        assert(image.spec_get_safe(
                            part.points@[k].x as int,
                            part.points@[k].y as int,
                        ));
                    }
                    let i0 = choose|i: int|
                        0 <= i < part.cells().len() && (#[trigger] part.cells()[i]).0 == aabb(
                            part.cells(),
                        ).0;
                    let i1 = choose|i: int|
                        0 <= i < part.cells().len() && (#[trigger] part.cells()[i]).1 == aabb(
                            part.cells(),
                        ).1;
                    let i2 = choose|i: int|
                        0 <= i < part.cells().len() && (#[trigger] part.cells()[i]).0 + 1 == aabb(
                            part.cells(),
                        ).2;
                    let i3 = choose|i: int|
                        0 <= i < part.cells().len() && (#[trigger] part.cells()[i]).1 + 1 == aabb(
                            part.cells(),
                        ).3;
                    assert(part.cells()[i0] == (part.points@[i0].x as int, part.points@[i0].y as int));
                    assert(part.cells()[i1] == (part.points@[i1].x as int, part.points@[i1].y as int));
                    assert(part.cells()[i2] == (part.points@[i2].x as int, part.points@[i2].y as int));
                    assert(part.cells()[i3] == (part.points@[i3].x as int, part.points@[i3].y as int));
                    assert(0 <= part.rect.left < part.rect.right <= image.width);
                    assert(0 <= part.rect.top < part.rect.bottom <= image.height);
                }
                cc.offset(o);
                proof {
                    assert(cc.rect.spec_width() * cc.rect.spec_height() <= image.width
                        * image.height) by (nonlinear_arith)
                        requires
                            0 <= cc.rect.spec_width() <= image.width,
                            0 <= cc.rect.spec_height() <= image.height,
                    ;
                    assert(cc.points@.no_duplicates()) by {
                        assert forall|a: int, b: int|
                            0 <= a < cc.points@.len() && 0 <= b < cc.points@.len() && a
                                != b implies cc.points@[a] != cc.points@[b] by {
                            assert(part.points@[a] != part.points@[b]);
                        }
                    }
                    assert forall|k: int| 0 <= k < cc.points@.len() implies cluster.points@.contains(
                        #[trigger] cc.points@[k],
                    ) && cc.points@[k] != r by {
                        let px = part.points@[k].x as int;
                        let py = part.points@[k].y as int;
                        assert(image.spec_get(px, py));
                        assert(cluster.cells().contains(
                            (px + cluster.rect.left, py + cluster.rect.top),
                        ));
                        let t = choose|t: int|
                            0 <= t < cluster.cells().len() && cluster.cells()[t] == (
                                px + cluster.rect.left,
                                py + cluster.rect.top,
                            );
                        assert(cluster.points@[t] == cc.points@[k]);
                    }
                    lemma_fewer_points(cc.points@, cluster.points@, r);
                }
                let ghost piece = cc;
                let ghost before_call = *output;
                Self::break_cluster_recursive(cc, output);
                proof {
                    assert(piece.points@ =~= moved(lists_of(found)[c as int], o));
                    let mid = before_call.clusters@.len() as int;
                    let len = output.clusters@.len() as int;
                    assert(!(lists_of(found)[c as int].len() < 5));
                    assert forall|j: int| base <= j < len implies (#[trigger] output.clusters@[j]).points@.len()
                        >= 5 by {
                        if j < mid {
                            assert(output.clusters@[j] == before_call.clusters@[j]);
                        }
                    }
                    assert(output.clusters@.subrange(base as int, len)
                        =~= before_call.clusters@.subrange(base as int, mid)
                        + output.clusters@.subrange(mid, len));
                    assert(lists_of(output.clusters@.subrange(base as int, len)) =~= lists_of(
                        before_call.clusters@.subrange(base as int, mid),
                    ) + lists_of(output.clusters@.subrange(mid, len)));
                    assert forall|g: nat| g + 1 >= cluster.points@.len() implies lists_of(
                        output.clusters@.subrange(base as int, len),
                    ) == #[trigger] broken_parts(lists_of(found), o, c + 1, g) by {
                        assert(lists_of(before_call.clusters@.subrange(base as int, mid))
                            == broken_parts(lists_of(found), o, c as int, g));
                        assert(lists_of(output.clusters@.subrange(mid, len)) == broken(
                            piece.points@,
                            g,
                        ));
                    }
                    let ghost old_owner = owner;
                    owner = Seq::new(
                        (output.clusters@.len() - base) as nat,
                        |j: int|
                            if j < old_owner.len() {
                                old_owner[j]
                            } else {
                                c as int
                            },
                    );
                    assert forall|j: int| 0 <= j < owner.len() implies 0 <= #[trigger] owner[j] < c + 1
                        && forall|k: int|
                        0 <= k < output.clusters@[base + j].points@.len() ==> moved_in(
                            found[owner[j]],
                            o,
                            #[trigger] output.clusters@[base + j].points@[k],
                        ) by {
                        if j < old_owner.len() {
                            assert(output.clusters@[base + j] == before_call.clusters@[base + j]);
                            assert(0 <= old_owner[j] < c);
                        } else {
                            let q = output.clusters@[base + j];
                            assert(q.is_piece_of(&piece));
                            assert forall|k: int| 0 <= k < q.points@.len() implies moved_in(
                                found[c as int],
                                o,
                                #[trigger] q.points@[k],
                            ) by {
                                assert(piece.points@.contains(q.points@[k]));
                                let t = choose|t: int|
                                    0 <= t < piece.points@.len() && piece.points@[t] == q.points@[k];
                                assert(piece.points@[t].x == part.points@[t].x + o.x);
                                assert(piece.points@[t].y == part.points@[t].y + o.y);
                            }
                        }
                    }
                    assert forall|c1: int, k1: int, c2: int, k2: int|
                        base <= c1 < output.clusters@.len() && 0 <= k1
                            < output.clusters@[c1].points@.len() && base <= c2
                            < output.clusters@.len() && 0 <= k2 < output.clusters@[c2].points@.len()
                            && #[trigger] output.clusters@[c1].points@[k1]
                            == #[trigger] output.clusters@[c2].points@[k2] implies c1 == c2 by {
                        let mid = before_call.clusters@.len() as int;
                        if c1 < mid && c2 < mid {
                            assert(output.clusters@[c1] == before_call.clusters@[c1]);
                            assert(output.clusters@[c2] == before_call.clusters@[c2]);
                        } else if c1 >= mid && c2 >= mid {
                        } else {
                            let p = output.clusters@[c1].points@[k1];
                            let j1 = c1 - base;
                            let j2 = c2 - base;
                            assert(0 <= owner[j1] < c + 1);
                            assert(0 <= owner[j2] < c + 1);
                            assert(output.clusters@[base + j1].points@[k1] == p);
                            assert(output.clusters@[base + j2].points@[k2] == p);
                            assert(moved_in(found[owner[j1]], o, p));
                            assert(moved_in(found[owner[j2]], o, p));
                            let a = owner[c1 - base];
                            let b = owner[c2 - base];
                            let t1 = choose|t: int|
                                0 <= t < found[a].points@.len() && p.x == (
                                #[trigger] found[a].points@[t]).x + o.x && p.y
                                    == found[a].points@[t].y + o.y;
                            let t2 = choose|t: int|
                                0 <= t < found[b].points@.len() && p.x == (
                                #[trigger] found[b].points@[t]).x + o.x && p.y
                                    == found[b].points@[t].y + o.y;
                            assert(found[a].points@[t1] == found[b].points@[t2]);
                            assert(a == b);
                        }
                    }
                    assert forall|j: int|
                        base <= j < output.clusters@.len() implies (#[trigger] output.clusters@[j]).is_piece_of(
                        &cluster,
                    ) by {
                        if j < before_call.clusters@.len() {
                            assert(output.clusters@[j] == before_call.clusters@[j]);
                        } else {
                            let q = output.clusters@[j];
                            assert(q.is_piece_of(&piece));
                            assert forall|k: int| 0 <= k < q.points@.len() implies cluster.points@.contains(
                                #[trigger] q.points@[k],
                            ) by {
                                assert(piece.points@.contains(q.points@[k]));
                                let t = choose|t: int|
                                    0 <= t < piece.points@.len() && piece.points@[t] == q.points@[k];
                                assert(cluster.points@.contains(piece.points@[t]));
                            }
                        }
                    }
                }
                c += 1;
            }
            proof {
                assert forall|depth: nat| depth >= cluster.points@.len() implies lists_of(
                    output.clusters@.subrange(base as int, output.clusters@.len() as int),
                ) == #[trigger] broken(cluster.points@, depth) by {
                    let g = (depth - 1) as nat;
                    assert(lists_of(
                        output.clusters@.subrange(base as int, output.clusters@.len() as int),
                    ) == broken_parts(lists_of(found), o, total as int, g));
                    assert(o == point_at(cluster.rect.left as int, cluster.rect.top as int));
                }
            }
        } else {
            proof {
                assert forall|k: int| 0 <= k < cluster.points@.len() implies cluster.points@.contains(
                    #[trigger] cluster.points@[k],
                ) by {}
            }
            let ghost base = output.clusters@.len() as int;
            output.add_cluster(cluster);
            proof {
                assert(lists_of(output.clusters@.subrange(base, output.clusters@.len() as int))
                    =~= seq![cluster.points@]);
            }
        }
    }
}

impl Clusters {
    /// The clusters partition the set pixels of `image`: no cluster is
    /// empty, every point of a cluster is a set pixel, every set pixel is a
    /// point of a cluster, no point occurs twice, and every rect is the
    /// tight bounding box of what it bounds.
    pub open spec fn partitions(&self, image: &BinaryImage) -> bool {
        &&& forall|c: int|
            0 <= c < self.clusters@.len() ==> {
                &&& (#[trigger] self.clusters@[c]).points@.len() > 0
                &&& self.clusters@[c].wf()
                &&& self.clusters@[c].points@.no_duplicates()
                &&& self.clusters@[c].within(image)
            }
        &&& forall|x: int, y: int|
            image.in_bounds(x, y) && #[trigger] image.spec_get(x, y) ==> exists|c: int|
                0 <= c < self.clusters@.len() && (#[trigger] self.clusters@[c]).points@.contains(
                    PointI32 { x: x as i32, y: y as i32 },
                )
        &&& forall|c1: int, k1: int, c2: int, k2: int|
            0 <= c1 < self.clusters@.len() && 0 <= k1 < self.clusters@[c1].points@.len() && 0
                <= c2 < self.clusters@.len() && 0 <= k2 < self.clusters@[c2].points@.len()
                && #[trigger] self.clusters@[c1].points@[k1]
                == #[trigger] self.clusters@[c2].points@[k2] ==> c1 == c2
        &&& self.rect.is_aabb_of(set_cells(image, image.width * image.height))
    }

    /// The clusters are the connected components of the set pixels of
    /// `image`: two pixels are in the same cluster if and only if a chain
    /// of set pixels, each a neighbour of the one before it, leads from
    /// the one to the other.
    pub open spec fn components(&self, image: &BinaryImage, diagonal: bool) -> bool {
        &&& forall|c: int|
            0 <= c < self.clusters@.len() ==> all_connected(
                image,
                diagonal,
                (#[trigger] self.clusters@[c]).points@,
            )
        &&& forall|c1: int, k1: int, c2: int, k2: int|
            0 <= c1 < self.clusters@.len() && 0 <= k1 < self.clusters@[c1].points@.len() && 0
                <= c2 < self.clusters@.len() && 0 <= k2 < self.clusters@[c2].points@.len()
                && connected(
                image,
                diagonal,
                cell_of(#[trigger] self.clusters@[c1].points@[k1]),
                cell_of(#[trigger] self.clusters@[c2].points@[k2]),
            ) ==> c1 == c2
    }

    /// The clusters are the labelling of the set pixels of `image`: they
    /// share out the set pixels, each is one connected component, and
    /// they and their points come in the order in which the scan, row by
    /// row, and its merges leave them.
    pub open spec fn is_labelling_of(&self, image: &BinaryImage, diagonal: bool) -> bool {
        &&& self.partitions(image)
        &&& self.components(image, diagonal)
        &&& lists_of(self.clusters@) == filled(
            spec_labelled(
                shown(image),
                image.width as int,
                diagonal,
                image.width * image.height,
            ).0,
        )
    }

    pub fn iter(&self) -> (it: core::slice::Iter<'_, Cluster>)
        ensures
            into_iter_elts(it) == self.clusters@,
    {
        broadcast use vstd::std_specs::slice::axiom_spec_slice_iter;

        let it = self.clusters.iter();
        proof {
            assert(self.clusters@.as_ref().unref() =~= self.clusters@);
        }
        it
    }

    pub fn len(&self) -> (n: usize)
        ensures
            n == self.clusters@.len(),
    {
        self.clusters.len()
    }

    pub fn is_empty(&self) -> (e: bool)
        ensures
            e == (self.clusters@.len() == 0),
    {
        self.clusters.len() == 0
    }

    pub fn get_cluster(&self, index: usize) -> (c: &Cluster)
        requires
            index < self.clusters@.len(),
        ensures
            *c == self.clusters@[index as int],
    {
        &self.clusters[index]
    }

    /// Appends a cluster and grows the rect to include the cluster's rect.
    pub fn add_cluster(&mut self, cluster: Cluster)
        ensures
            final(self).clusters@ == old(self).clusters@.push(cluster),
            final(self).rect == old(self).rect.spec_merge(cluster.rect),
    {
        self.rect.merge(cluster.rect);
        self.clusters.push(cluster);
    }
}

/// Every two of the points are connected.
pub open spec fn all_connected(image: &BinaryImage, diagonal: bool, points: Seq<PointI32>) -> bool {
    forall|k1: int, k2: int|
        0 <= k1 < points.len() && 0 <= k2 < points.len() ==> connected(
            image,
            diagonal,
            cell_of(#[trigger] points[k1]),
            cell_of(#[trigger] points[k2]),
        )
}

/// Two lists of connected points, with a point of the one connected with
/// a point of the other, make one list of connected points.
proof fn lemma_knit_merge(
    image: &BinaryImage,
    diagonal: bool,
    to: Seq<PointI32>,
    from: Seq<PointI32>,
    a: PointI32,
    b: PointI32,
)
    requires
        all_connected(image, diagonal, to),
        all_connected(image, diagonal, from),
        from.contains(a),
        to.contains(b),
        connected(image, diagonal, cell_of(a), cell_of(b)),
    ensures
        all_connected(image, diagonal, to + from),
{
    let whole = to + from;
    let ka = choose|k: int| 0 <= k < from.len() && from[k] == a;
    let kb = choose|k: int| 0 <= k < to.len() && to[k] == b;
    assert forall|k: int| 0 <= k < whole.len() implies connected(
        image,
        diagonal,
        cell_of(#[trigger] whole[k]),
        cell_of(b),
    ) by {
        if k < to.len() {
            assert(whole[k] == to[k]);
            assert(connected(image, diagonal, cell_of(to[k]), cell_of(to[kb])));
        } else {
            assert(whole[k] == from[k - to.len()]);
            assert(connected(image, diagonal, cell_of(from[k - to.len()]), cell_of(from[ka])));
            lemma_connected_trans(image, diagonal, cell_of(whole[k]), cell_of(a), cell_of(b));
        }
    }
    assert forall|k1: int, k2: int| 0 <= k1 < whole.len() && 0 <= k2 < whole.len() implies connected(
        image,
        diagonal,
        cell_of(#[trigger] whole[k1]),
        cell_of(#[trigger] whole[k2]),
    ) by {
        lemma_connected_sym(image, diagonal, cell_of(whole[k2]), cell_of(b));
        lemma_connected_trans(image, diagonal, cell_of(whole[k1]), cell_of(b), cell_of(whole[k2]));
    }
}

/// A list of connected points stays one with a point more that is
/// connected with one of them.
proof fn lemma_knit_push(image: &BinaryImage, diagonal: bool, points: Seq<PointI32>, q: PointI32, p: PointI32)
    requires
        all_connected(image, diagonal, points),
        points.contains(q),
        connected(image, diagonal, cell_of(q), cell_of(p)),
        image.spec_get_safe(p.x as int, p.y as int),
    ensures
        all_connected(image, diagonal, points.push(p)),
{
    let one = seq![p];
    lemma_connected_self(image, diagonal, cell_of(p));
    assert(all_connected(image, diagonal, one));
    assert(one[0] == p);
    lemma_connected_sym(image, diagonal, cell_of(q), cell_of(p));
    lemma_knit_merge(image, diagonal, points, one, p, q);
    assert(points.push(p) =~= points + one);
}

/// Has the scan of the first `n` pixels, of an image `w` wide, met the
/// pair of the pixel `(bx, by)` and its neighbour `(ax, ay)` to the left,
/// above, or with `diagonal` above to the left or right? A pixel and the
/// one above to the right are met only at the pixel between them, to the
/// right of the first.
pub open spec fn met(diagonal: bool, w: int, ax: int, ay: int, bx: int, by: int, n: int) -> bool {
    ||| (ay == by && ax == bx - 1 && cell_index(bx, by, w) < n)
    ||| (ax == bx && ay == by - 1 && cell_index(bx, by, w) < n)
    ||| (diagonal && ax == bx - 1 && ay == by - 1 && cell_index(bx, by, w) < n)
    ||| (diagonal && ax == bx + 1 && ay == by - 1 && cell_index(bx, by, w) + 1 < n)
}

/// Two set pixels that are neighbours have the same label, once the scan
/// of the first `n` pixels has met the pair.
pub open spec fn joined(map: Seq<u32>, image: &BinaryImage, diagonal: bool, n: int) -> bool {
    forall|ax: int, ay: int, bx: int, by: int|
        image.in_bounds(ax, ay) && image.in_bounds(bx, by) && image.spec_get(ax, ay)
            && image.spec_get(bx, by) && #[trigger] met(
            diagonal,
            image.width as int,
            ax,
            ay,
            bx,
            by,
            n,
        ) ==> map[cell_index(ax, ay, image.width as int)] == map[cell_index(
            bx,
            by,
            image.width as int,
        )]
}

/// Giving every pixel labelled `from` the label `to` keeps the labels of
/// neighbours the same.
proof fn lemma_joined_relabel(
    before: Seq<u32>,
    after: Seq<u32>,
    image: &BinaryImage,
    diagonal: bool,
    n: int,
    from: u32,
    to: u32,
)
    requires
        joined(before, image, diagonal, n),
        forall|x: int, y: int|
            image.in_bounds(x, y) && #[trigger] image.spec_get(x, y) && cell_index(
                x,
                y,
                image.width as int,
            ) < n ==> after[cell_index(x, y, image.width as int)] == (if before[cell_index(
                x,
                y,
                image.width as int,
            )] == from {
                to
            } else {
                before[cell_index(x, y, image.width as int)]
            }),
    ensures
        joined(after, image, diagonal, n),
{
    let w = image.width as int;
    assert forall|ax: int, ay: int, bx: int, by: int|
        image.in_bounds(ax, ay) && image.in_bounds(bx, by) && image.spec_get(ax, ay)
            && image.spec_get(bx, by) && #[trigger] met(diagonal, w, ax, ay, bx, by, n) implies after[cell_index(
        ax,
        ay,
        w,
    )] == after[cell_index(bx, by, w)] by {
        assert(cell_index(ax, ay, w) < n && cell_index(bx, by, w) < n) by (nonlinear_arith)
            requires
                met(diagonal, w, ax, ay, bx, by, n),
                0 <= ax < w,
                0 <= bx < w,
                cell_index(ax, ay, w) == ay * w + ax,
                cell_index(bx, by, w) == by * w + bx,
        ;
    }
}

/// The labels of neighbours stay the same after the scan of the pixel
/// `(x, y)`, where what the scan met there has the same label.
proof fn lemma_joined_next(
    before: Seq<u32>,
    after: Seq<u32>,
    image: &BinaryImage,
    diagonal: bool,
    x: int,
    y: int,
)
    requires
        image.in_bounds(x, y),
        before.len() == image.width * image.height,
        joined(before, image, diagonal, cell_index(x, y, image.width as int)),
        after.len() == before.len(),
        forall|i: int|
            0 <= i < before.len() && i != cell_index(x, y, image.width as int) ==> after[i]
                == before[i],
        image.spec_get(x, y) && image.spec_get_safe(x - 1, y) ==> after[cell_index(
            x - 1,
            y,
            image.width as int,
        )] == after[cell_index(x, y, image.width as int)],
        image.spec_get(x, y) && image.spec_get_safe(x, y - 1) ==> after[cell_index(
            x,
            y - 1,
            image.width as int,
        )] == after[cell_index(x, y, image.width as int)],
        diagonal && image.spec_get(x, y) && image.spec_get_safe(x - 1, y - 1) ==> after[cell_index(
            x - 1,
            y - 1,
            image.width as int,
        )] == after[cell_index(x, y, image.width as int)],
        diagonal && image.spec_get_safe(x - 1, y) && image.spec_get_safe(x, y - 1)
            ==> after[cell_index(x - 1, y, image.width as int)] == after[cell_index(
            x,
            y - 1,
            image.width as int,
        )],
    ensures
        joined(after, image, diagonal, cell_index(x, y, image.width as int) + 1),
{
    let w = image.width as int;
    let n = cell_index(x, y, w);
    assert forall|ax: int, ay: int, bx: int, by: int|
        image.in_bounds(ax, ay) && image.in_bounds(bx, by) && image.spec_get(ax, ay)
            && image.spec_get(bx, by) && #[trigger] met(diagonal, w, ax, ay, bx, by, n + 1) implies after[cell_index(
        ax,
        ay,
        w,
    )] == after[cell_index(bx, by, w)] by {
        lemma_cell_index_bound(ax, ay, w, image.height as int);
        lemma_cell_index_bound(bx, by, w, image.height as int);
        assert(cell_index(ax, ay, w) == ay * w + ax);
        assert(cell_index(bx, by, w) == by * w + bx);
        assert((by - 1) * w == by * w - w) by (nonlinear_arith);
        if met(diagonal, w, ax, ay, bx, by, n) {
            assert(cell_index(ax, ay, w) < n && cell_index(bx, by, w) < n);
        } else if cell_index(bx, by, w) == n {
            lemma_cell_index_injective(bx, by, x, y, w);
        } else {
            // the pixel to the left of `(x, y)` and the one above it
            assert(cell_index(bx, by, w) + 1 == n);
            lemma_cell_index_injective(bx + 1, by, x, y, w);
        }
    }
}

/// Where all neighbours have the same label, so have the two ends of a
/// chain.
proof fn lemma_chain_label(map: Seq<u32>, image: &BinaryImage, diagonal: bool, path: Seq<(int, int)>)
    requires
        joined(map, image, diagonal, image.width * image.height),
        is_chain(image, diagonal, path),
    ensures
        map[cell_index(path[0].0, path[0].1, image.width as int)] == map[cell_index(
            path.last().0,
            path.last().1,
            image.width as int,
        )],
    decreases path.len(),
{
    if path.len() > 1 {
        let w = image.width as int;
        let n = image.width * image.height;
        let head = path.drop_last();
        assert forall|k: int| 0 < k < head.len() implies adjacent(diagonal, head[k - 1], #[trigger] head[k]) by {
            assert(adjacent(diagonal, path[k - 1], path[k]));
        }
        assert forall|k: int| 0 <= k < head.len() implies image.spec_get_safe((#[trigger] head[k]).0, head[k].1) by {
            assert(head[k] == path[k]);
        }
        lemma_chain_label(map, image, diagonal, head);
        let a = path[path.len() - 2];
        let b = path[path.len() - 1];
        assert(head.last() == a);
        assert(adjacent(diagonal, a, b));
        assert(image.spec_get_safe(a.0, a.1) && image.spec_get_safe(b.0, b.1));
        lemma_cell_index_bound(a.0, a.1, w, image.height as int);
        lemma_cell_index_bound(b.0, b.1, w, image.height as int);
        assert(cell_index(a.0 + 1, a.1, w) == cell_index(a.0, a.1, w) + 1);
        assert(cell_index(b.0 + 1, b.1, w) == cell_index(b.0, b.1, w) + 1);
        if a.0 + 1 < w {
            lemma_cell_index_bound(a.0 + 1, a.1, w, image.height as int);
        }
        if b.0 + 1 < w {
            lemma_cell_index_bound(b.0 + 1, b.1, w, image.height as int);
        }
        if b.1 > a.1 || (b.1 == a.1 && b.0 > a.0) {
            // `a` comes first in the scan
            assert(met(diagonal, w, a.0, a.1, b.0, b.1, n));
        } else {
            assert(met(diagonal, w, b.0, b.1, a.0, a.1, n));
        }
    }
}

/// The point of the pixel `(x, y)`.
pub open spec fn point_at(x: int, y: int) -> PointI32 {
    PointI32 { x: x as i32, y: y as i32 }
}

/// The label under which `p` is listed: the place in `lists` of the list
/// that holds it.
pub open spec fn label_of(lists: Seq<Seq<PointI32>>, p: PointI32) -> int {
    choose|c: int| 0 <= c < lists.len() && #[trigger] lists[c].contains(p)
}

/// The lists once the points under `from` have gone behind those under
/// `to`.
pub open spec fn poured(lists: Seq<Seq<PointI32>>, from: int, to: int) -> Seq<Seq<PointI32>> {
    lists.update(to, lists[to] + lists[from]).update(from, Seq::empty())
}

/// The picture that `image` shows: its set pixels, and nothing outside.
pub open spec fn shown(image: &BinaryImage) -> spec_fn(int, int) -> bool {
    |x: int, y: int| image.spec_get_safe(x, y)
}

/// The first half of the scan of the pixel `(x, y)` of the picture `f`,
/// on the lists of points by label and the next free label. Where the pixel above and the
/// pixel to the left are set under two labels, and the pixel itself is set
/// or diagonals count, the shorter list goes behind the longer one (the
/// left one on a tie); the last label given becomes free again when it was
/// the left one and has gone.
pub open spec fn spec_join(
    s: (Seq<Seq<PointI32>>, int),
    f: spec_fn(int, int) -> bool,
    diagonal: bool,
    x: int,
    y: int,
) -> (Seq<Seq<PointI32>>, int) {
    let up = label_of(s.0, point_at(x, y - 1));
    let left = label_of(s.0, point_at(x - 1, y));
    if (f(x, y) || diagonal) && f(x, y - 1)
        && f(x - 1, y) && left != up {
        if s.0[left].len() <= s.0[up].len() {
            (
                poured(s.0, left, up),
                if s.1 > 0 && left == s.1 - 1 && s.1 == s.0.len() {
                    s.1 - 1
                } else {
                    s.1
                },
            )
        } else {
            (poured(s.0, up, left), s.1)
        }
    } else {
        s
    }
}

/// The second half of the scan of the pixel `(x, y)`: a set pixel goes to
/// the end of the list of the pixel above, else of the pixel to the left,
/// else (where diagonals count) of the pixel above and to the left, else
/// it starts the list of the next free label.
pub open spec fn spec_attach(
    s: (Seq<Seq<PointI32>>, int),
    f: spec_fn(int, int) -> bool,
    diagonal: bool,
    x: int,
    y: int,
) -> (Seq<Seq<PointI32>>, int) {
    let here = point_at(x, y);
    if !f(x, y) {
        s
    } else if f(x, y - 1) {
        let l = label_of(s.0, point_at(x, y - 1));
        (s.0.update(l, s.0[l].push(here)), s.1)
    } else if f(x - 1, y) {
        let l = label_of(s.0, point_at(x - 1, y));
        (s.0.update(l, s.0[l].push(here)), s.1)
    } else if f(x - 1, y - 1) && diagonal {
        let l = label_of(s.0, point_at(x - 1, y - 1));
        (s.0.update(l, s.0[l].push(here)), s.1)
    } else if s.1 < s.0.len() {
        (s.0.update(s.1, seq![here]), s.1 + 1)
    } else {
        (s.0.push(seq![here]), s.1 + 1)
    }
}

/// The lists of points by label, and the next free label, after the scan
/// of the first `n` pixels, row by row, of the picture `f` of width `w`.
pub open spec fn spec_labelled(f: spec_fn(int, int) -> bool, w: int, diagonal: bool, n: int) -> (
    Seq<Seq<PointI32>>,
    int,
)
    decreases n,
{
    if n <= 0 {
        (Seq::empty(), 0)
    } else {
        let x = (n - 1) % w;
        let y = (n - 1) / w;
        spec_attach(spec_join(spec_labelled(f, w, diagonal, n - 1), f, diagonal, x, y), f, diagonal, x, y)
    }
}

/// The lists of `lists` that hold a point, in their order.
pub open spec fn filled(lists: Seq<Seq<PointI32>>) -> Seq<Seq<PointI32>> {
    lists.filter(|l: Seq<PointI32>| l.len() > 0)
}

/// The points of each cluster of `clusters`, in their order.
pub open spec fn lists_of(clusters: Seq<Cluster>) -> Seq<Seq<PointI32>> {
    Seq::new(clusters.len(), |c: int| clusters[c].points@)
}

/// The picture of `points` inside their bounding box, which has its top
/// left corner at the origin of the picture.
pub open spec fn picture_of(points: Seq<PointI32>) -> spec_fn(int, int) -> bool {
    let b = aabb(cells_of(points));
    |x: int, y: int|
        0 <= x < b.2 - b.0 && 0 <= y < b.3 - b.1 && cells_of(points).contains((x + b.0, y + b.1))
}

/// The picture `f` with the pixel `c` cleared.
pub open spec fn without(f: spec_fn(int, int) -> bool, c: (int, int)) -> spec_fn(int, int) -> bool {
    |x: int, y: int| f(x, y) && !(x == c.0 && y == c.1)
}

/// One of the lists has fewer than five points.
pub open spec fn has_small(parts: Seq<Seq<PointI32>>) -> bool {
    exists|k: int| 0 <= k < parts.len() && (#[trigger] parts[k]).len() < 5
}

/// What a cluster of the points `points` is broken into, each piece by
/// its points. A picture without a diagonal bridge stays whole. Else the
/// pixel at which it is broken is cleared and the rest is labelled, along
/// the four directions only; where a part has fewer than five points (or
/// nothing is left) the cluster stays whole, too; else each part, moved
/// back to its place, is broken in turn, and the pieces follow each other
/// in the order of the parts. `depth` bounds how often a piece is broken
/// again: a part has fewer points than the whole, so the number of the
/// points is enough.
pub open spec fn broken(points: Seq<PointI32>, depth: nat) -> Seq<Seq<PointI32>>
    decreases depth, 0int,
{
    let b = aabb(cells_of(points));
    let w = b.2 - b.0;
    let h = b.3 - b.1;
    if depth == 0 {
        seq![points]
    } else {
        match spec_break_at(picture_of(points), w, h) {
            None => seq![points],
            Some(c) => {
                let parts = filled(spec_labelled(without(picture_of(points), c), w, false, w * h).0);
                if parts.len() == 0 || has_small(parts) {
                    seq![points]
                } else {
                    broken_parts(
                        parts,
                        point_at(b.0, b.1),
                        parts.len() as int,
                        (depth - 1) as nat,
                    )
                }
            },
        }
    }
}

/// The pieces of the first `n` of `parts`, each moved by `o` and then
/// broken.
pub open spec fn broken_parts(parts: Seq<Seq<PointI32>>, o: PointI32, n: int, depth: nat) -> Seq<
    Seq<PointI32>,
>
    decreases depth, n,
{
    if n <= 0 {
        Seq::empty()
    } else {
        broken_parts(parts, o, n - 1, depth) + broken(moved(parts[n - 1], o), depth)
    }
}

/// One more list is kept where it holds a point.
proof fn lemma_filled_push(lists: Seq<Seq<PointI32>>, l: Seq<PointI32>)
    ensures
        filled(lists.push(l)) == if l.len() > 0 {
            filled(lists).push(l)
        } else {
            filled(lists)
        },
{
    reveal(Seq::filter);
    assert(lists.push(l).drop_last() =~= lists);
}

/// The state of the labelling scan: the clusters found so far, the label
/// of every pixel, and the next free label.
struct Labeller {
    clusters: Vec<Cluster>,
    map: Vec<u32>,
    next: u32,
    width: usize,
}

impl Labeller {
    /// The points of every label, and the next free label.
    spec fn lists(&self) -> (Seq<Seq<PointI32>>, int) {
        (Seq::new(self.clusters@.len(), |c: int| self.clusters@[c].points@), self.next as int)
    }

    /// A point is listed under the label of the cluster that holds it.
    proof fn lemma_label_of(&self, image: &BinaryImage, n: int, c: int, p: PointI32)
        requires
            self.inv(image, n),
            0 <= c < self.clusters@.len(),
            self.clusters@[c].points@.contains(p),
        ensures
            label_of(self.lists().0, p) == c,
    {
        let lists = self.lists().0;
        assert(lists[c].contains(p));
        let d = label_of(lists, p);
        assert(0 <= d < lists.len() && lists[d].contains(p));
        let k = choose|k: int| 0 <= k < self.clusters@[c].points@.len() && self.clusters@[c].points@[k] == p;
        let j = choose|j: int| 0 <= j < self.clusters@[d].points@.len() && self.clusters@[d].points@[j] == p;
        assert(self.point_ok(image, n, c, self.clusters@[c].points@[k]));
        assert(self.point_ok(image, n, d, self.clusters@[d].points@[j]));
    }

    /// The point `p` of cluster `c` is a scanned set pixel labelled `c`.
    spec fn point_ok(&self, image: &BinaryImage, n: int, c: int, p: PointI32) -> bool {
        &&& image.in_bounds(p.x as int, p.y as int)
        &&& cell_index(p.x as int, p.y as int, image.width as int) < n
        &&& image.spec_get(p.x as int, p.y as int)
        &&& self.map@[cell_index(p.x as int, p.y as int, image.width as int)] == c
    }

    /// The cluster that the pixel `(x, y)` is labelled with holds it.
    spec fn cell_ok(&self, image: &BinaryImage, x: int, y: int) -> bool {
        let l = self.map@[cell_index(x, y, image.width as int)];
        l < self.clusters@.len() && self.clusters@[l as int].points@.contains(
            PointI32 { x: x as i32, y: y as i32 },
        )
    }

    /// What holds after the first `n` pixels are scanned.
    spec fn inv(&self, image: &BinaryImage, n: int) -> bool {
        &&& labelling_fits(image)
        &&& self.width == image.width
        &&& self.map@.len() == image.width * image.height
        &&& 0 <= n <= image.width * image.height
        &&& self.next <= self.clusters@.len() <= self.next + 1
        &&& self.clusters@.len() <= n
        &&& forall|x: int, y: int|
            image.in_bounds(x, y) && cell_index(x, y, image.width as int) < n
                && #[trigger] image.spec_get(x, y) ==> self.cell_ok(image, x, y)
        &&& forall|c: int, k: int|
            0 <= c < self.clusters@.len() && 0 <= k < self.clusters@[c].points@.len()
                ==> self.point_ok(image, n, c, #[trigger] self.clusters@[c].points@[k])
        &&& forall|c: int|
            0 <= c < self.clusters@.len() ==> (#[trigger] self.clusters@[c]).points@.no_duplicates()
        &&& forall|c: int|
            0 <= c < self.clusters@.len() && (#[trigger] self.clusters@[c]).points@.len() > 0
                ==> self.clusters@[c].wf()
        &&& forall|c: int|
            self.next <= c < self.clusters@.len() ==> (#[trigger] self.clusters@[c]).points@.len()
                == 0
    }

    /// The points of every cluster are connected with each other.
    spec fn knit(&self, image: &BinaryImage, diagonal: bool) -> bool {
        forall|c: int|
            0 <= c < self.clusters@.len() ==> all_connected(
                image,
                diagonal,
                (#[trigger] self.clusters@[c]).points@,
            )
    }

    /// Moves the points of cluster `from` into cluster `to` and relabels
    /// their pixels.
    fn combine(
        &mut self,
        Ghost(image): Ghost<&BinaryImage>,
        Ghost(n): Ghost<int>,
        Ghost(diagonal): Ghost<bool>,
        Ghost(a): Ghost<PointI32>,
        Ghost(b): Ghost<PointI32>,
        from: u32,
        to: u32,
    )
        requires
            old(self).inv(image, n),
            old(self).knit(image, diagonal),
            old(self).clusters@[from as int].points@.contains(a),
            old(self).clusters@[to as int].points@.contains(b),
            connected(image, diagonal, cell_of(a), cell_of(b)),
            from != to,
            from < old(self).clusters@.len(),
            to < old(self).clusters@.len(),
            old(self).clusters@[from as int].points@.len() > 0,
            old(self).clusters@[to as int].points@.len() > 0,
        ensures
            final(self).inv(image, n),
            final(self).knit(image, diagonal),
            final(self).next == old(self).next,
            final(self).width == old(self).width,
            final(self).clusters@.len() == old(self).clusters@.len(),
            final(self).clusters@[from as int].points@.len() == 0,
            final(self).clusters@[to as int].points@.len() > 0,
            final(self).lists().0 == poured(old(self).lists().0, from as int, to as int),
            forall|i: int|
                0 <= i < old(self).map@.len() ==> #[trigger] final(self).map@[i] == (if old(self).map@[i] == from && final(self).map@[i] != from {
                    to
                } else {
                    old(self).map@[i]
                }),
            forall|x: int, y: int|
                image.in_bounds(x, y) && cell_index(x, y, image.width as int) < n
                    && #[trigger] image.spec_get(x, y) ==> final(self).map@[cell_index(
                    x,
                    y,
                    image.width as int,
                )] != from,
    {
        let ghost w = image.width as int;
        let n_from = self.clusters[from as usize].points.len();
        let mut j: usize = 0;
        while j < n_from
            invariant
                j <= n_from,
                old(self).inv(image, n),
                w == image.width,
                from != to,
                from < old(self).clusters@.len(),
                to < old(self).clusters@.len(),
                n_from == old(self).clusters@[from as int].points@.len(),
                self.clusters@ == old(self).clusters@,
                self.next == old(self).next,
                self.width == old(self).width,
                self.map@.len() == old(self).map@.len(),
                forall|k: int|
                    0 <= k < j ==> self.map@[cell_index(
                        (#[trigger] old(self).clusters@[from as int].points@[k]).x as int,
                        old(self).clusters@[from as int].points@[k].y as int,
                        w,
                    )] == to,
                forall|i: int|
                    0 <= i < self.map@.len() && #[trigger] self.map@[i] != old(self).map@[i]
                        ==> self.map@[i] == to && old(self).map@[i] == from,
            decreases n_from - j,
        {
            let o = self.clusters[from as usize].points[j];
            proof {
                assert(old(self).point_ok(
                    image,
                    n,
                    from as int,
                    old(self).clusters@[from as int].points@[j as int],
                ));
                lemma_cell_index_bound(o.x as int, o.y as int, w, image.height as int);
            }
            let idx: usize = o.y as usize * self.width + o.x as usize;
            self.map.set(idx, to);
            j += 1;
        }
        let mut drained: Vec<PointI32> = Vec::new();
        core::mem::swap(&mut self.clusters[from as usize].points, &mut drained);
        self.clusters[to as usize].points.append(&mut drained);
        let rect = self.clusters[from as usize].rect;
        self.clusters[to as usize].rect.merge(rect);
        proof {
            let old_from = old(self).clusters@[from as int];
            let old_to = old(self).clusters@[to as int];
            let new_to = self.clusters@[to as int];
            assert(new_to.points@ == old_to.points@ + old_from.points@);
            assert(self.clusters@[from as int].points@.len() == 0);
            assert forall|c: int|
                0 <= c < self.clusters@.len() && c != from && c != to implies #[trigger] self.clusters@[c]
                == old(self).clusters@[c] by {}
            // the points of every cluster are connected
            assert forall|c: int| 0 <= c < self.clusters@.len() implies all_connected(
                image,
                diagonal,
                (#[trigger] self.clusters@[c]).points@,
            ) by {
                if c == to {
                    assert(all_connected(image, diagonal, old(self).clusters@[to as int].points@));
                    assert(all_connected(image, diagonal, old(self).clusters@[from as int].points@));
                    lemma_knit_merge(image, diagonal, old_to.points@, old_from.points@, a, b);
                } else if c != from {
                    assert(all_connected(image, diagonal, old(self).clusters@[c].points@));
                }
            }
            // a point of `from` is now labelled `to`
            assert forall|k: int| 0 <= k < old_from.points@.len() implies self.map@[cell_index(
                (#[trigger] old_from.points@[k]).x as int,
                old_from.points@[k].y as int,
                w,
            )] == to by {}
            // every scanned set pixel is held by the cluster of its label
            assert forall|x: int, y: int|
                image.in_bounds(x, y) && cell_index(x, y, w) < n && #[trigger] image.spec_get(
                    x,
                    y,
                ) implies self.cell_ok(image, x, y) && self.map@[cell_index(x, y, w)] != from by {
                let ci = cell_index(x, y, w);
                lemma_cell_index_bound(x, y, w, image.height as int);
                assert(old(self).cell_ok(image, x, y));
                let l = old(self).map@[ci];
                let p = PointI32 { x: x as i32, y: y as i32 };
                let k = choose|k: int|
                    0 <= k < old(self).clusters@[l as int].points@.len() && old(self).clusters@[l as int].points@[k] == p;
                if l == from {
                    assert(old_from.points@[k] == p);
                    assert(self.map@[ci] == to);
                    assert(new_to.points@[old_to.points@.len() + k] == p);
                } else {
                    assert(self.map@[ci] == l);
                    if l == to {
                        assert(new_to.points@[k] == p);
                    } else {
                        assert(self.clusters@[l as int] == old(self).clusters@[l as int]);
                    }
                }
            }
            // every point of a cluster is a scanned set pixel with its label
            assert forall|c: int, k: int|
                0 <= c < self.clusters@.len() && 0 <= k < self.clusters@[c].points@.len() implies self.point_ok(
                image,
                n,
                c,
                #[trigger] self.clusters@[c].points@[k],
            ) by {
                if c == to {
                    if k < old_to.points@.len() {
                        assert(new_to.points@[k] == old_to.points@[k]);
                        assert(old(self).point_ok(image, n, c, old_to.points@[k]));
                    } else {
                        let k2 = k - old_to.points@.len();
                        assert(new_to.points@[k] == old_from.points@[k2]);
                        assert(old(self).point_ok(image, n, from as int, old_from.points@[k2]));
                    }
                } else {
                    assert(self.clusters@[c] == old(self).clusters@[c]);
                    assert(old(self).point_ok(image, n, c, old(self).clusters@[c].points@[k]));
                }
            }
            // no point occurs twice
            assert forall|c: int| 0 <= c < self.clusters@.len() implies (#[trigger] self.clusters@[c]).points@.no_duplicates() by {
                if c == to {
                    assert forall|a: int, b: int|
                        0 <= a < new_to.points@.len() && 0 <= b < new_to.points@.len() && a
                            != b implies new_to.points@[a] != new_to.points@[b] by {
                        let la = old_to.points@.len() as int;
                        if a < la && b < la {
                            assert(old_to.points@.no_duplicates());
                        } else if a >= la && b >= la {
                            assert(old_from.points@.no_duplicates());
                            assert(new_to.points@[a] == old_from.points@[a - la]);
                            assert(new_to.points@[b] == old_from.points@[b - la]);
                        } else {
                            let (ia, ib) = if a < la {
                                (a, b - la)
                            } else {
                                (b, a - la)
                            };
                            assert(old(self).point_ok(image, n, to as int, old_to.points@[ia]));
                            assert(old(self).point_ok(image, n, from as int, old_from.points@[ib]));
                        }
                    }
                } else if c != from {
                    assert(self.clusters@[c] == old(self).clusters@[c]);
                }
            }
            // the rect of the grown cluster is tight
            assert(old_from.wf() && old_to.wf());
            old_to.rect.lemma_merge_keeps_aabb(old_to.cells(), old_from.rect, old_from.cells());
            assert(new_to.cells() =~= old_to.cells() + old_from.cells());
            assert forall|c: int|
                0 <= c < self.clusters@.len() && (#[trigger] self.clusters@[c]).points@.len()
                    > 0 implies self.clusters@[c].wf() by {
                if c != to {
                    assert(self.clusters@[c] == old(self).clusters@[c]);
                }
            }
            assert forall|c: int| self.next <= c < self.clusters@.len() implies (#[trigger] self.clusters@[c]).points@.len() == 0 by {
                if c != from {
                    assert(c != to);
                    assert(self.clusters@[c] == old(self).clusters@[c]);
                }
            }
            assert(self.lists().0 =~= poured(old(self).lists().0, from as int, to as int));
        }
    }

    /// A scanned pixel that is not set changes nothing.
    proof fn lemma_skip(&self, image: &BinaryImage, x: int, y: int)
        requires
            self.inv(image, cell_index(x, y, image.width as int)),
            image.in_bounds(x, y),
            !image.spec_get(x, y),
        ensures
            self.inv(image, cell_index(x, y, image.width as int) + 1),
    {
        let w = image.width as int;
        let n = cell_index(x, y, w);
        lemma_cell_index_bound(x, y, w, image.height as int);
        assert forall|x2: int, y2: int|
            image.in_bounds(x2, y2) && cell_index(x2, y2, w) < n + 1 && #[trigger] image.spec_get(
                x2,
                y2,
            ) implies self.cell_ok(image, x2, y2) by {
            if cell_index(x2, y2, w) == n {
                lemma_cell_index_injective(x2, y2, x, y, w);
            }
        }
        assert forall|c: int, k: int|
            0 <= c < self.clusters@.len() && 0 <= k < self.clusters@[c].points@.len() implies self.point_ok(
            image,
            n + 1,
            c,
            #[trigger] self.clusters@[c].points@[k],
        ) by {
            assert(self.point_ok(image, n, c, self.clusters@[c].points@[k]));
        }
    }

    /// Labels the set pixel `(x, y)` with `c` and adds it to that cluster.
    fn attach(
        &mut self,
        Ghost(image): Ghost<&BinaryImage>,
        Ghost(diagonal): Ghost<bool>,
        Ghost(q): Ghost<PointI32>,
        x: usize,
        y: usize,
        c: u32,
    )
        requires
            old(self).inv(image, cell_index(x as int, y as int, image.width as int)),
            old(self).knit(image, diagonal),
            old(self).clusters@[c as int].points@.contains(q),
            connected(image, diagonal, cell_of(q), (x as int, y as int)),
            image.in_bounds(x as int, y as int),
            image.spec_get(x as int, y as int),
            c < old(self).clusters@.len(),
            old(self).clusters@[c as int].points@.len() > 0,
        ensures
            final(self).inv(image, cell_index(x as int, y as int, image.width as int) + 1),
            final(self).knit(image, diagonal),
            final(self).map@ == old(self).map@.update(
                cell_index(x as int, y as int, image.width as int),
                c,
            ),
            final(self).lists() == (
                old(self).lists().0.update(
                    c as int,
                    old(self).lists().0[c as int].push(point_at(x as int, y as int)),
                ),
                old(self).lists().1,
            ),
    {
        let ghost w = image.width as int;
        let ghost n = cell_index(x as int, y as int, w);
        let pos = PointI32 { x: x as i32, y: y as i32 };
        proof {
            lemma_cell_index_bound(x as int, y as int, w, image.height as int);
        }
        let idx: usize = y * self.width + x;
        self.map.set(idx, c);
        self.clusters[c as usize].add(pos);
        proof {
            assert(self.lists().0 =~= old(self).lists().0.update(
                c as int,
                old(self).lists().0[c as int].push(point_at(x as int, y as int)),
            ));
            let old_c = old(self).clusters@[c as int];
            let new_c = self.clusters@[c as int];
            assert(new_c.points@ == old_c.points@.push(pos));
            assert forall|d: int| 0 <= d < self.clusters@.len() && d != c implies #[trigger] self.clusters@[d]
                == old(self).clusters@[d] by {}
            assert forall|d: int| 0 <= d < self.clusters@.len() implies all_connected(
                image,
                diagonal,
                (#[trigger] self.clusters@[d]).points@,
            ) by {
                assert(all_connected(image, diagonal, old(self).clusters@[d].points@));
                if d == c {
                    lemma_knit_push(image, diagonal, old_c.points@, q, pos);
                }
            }
            assert forall|x2: int, y2: int|
                image.in_bounds(x2, y2) && cell_index(x2, y2, w) < n + 1
                    && #[trigger] image.spec_get(x2, y2) implies self.cell_ok(image, x2, y2) by {
                lemma_cell_index_bound(x2, y2, w, image.height as int);
                if cell_index(x2, y2, w) == n {
                    lemma_cell_index_injective(x2, y2, x as int, y as int, w);
                    assert(new_c.points@[old_c.points@.len() as int] == pos);
                } else {
                    assert(old(self).cell_ok(image, x2, y2));
                    let l = old(self).map@[cell_index(x2, y2, w)];
                    let p = PointI32 { x: x2 as i32, y: y2 as i32 };
                    let k = choose|k: int|
                        0 <= k < old(self).clusters@[l as int].points@.len() && old(self).clusters@[l as int].points@[k] == p;
                    if l == c {
                        assert(new_c.points@[k] == p);
                    } else {
                        assert(self.clusters@[l as int] == old(self).clusters@[l as int]);
                    }
                }
            }
            assert forall|d: int, k: int|
                0 <= d < self.clusters@.len() && 0 <= k < self.clusters@[d].points@.len() implies self.point_ok(
                image,
                n + 1,
                d,
                #[trigger] self.clusters@[d].points@[k],
            ) by {
                if d == c && k == old_c.points@.len() {
                } else {
                    if d != c {
                        assert(self.clusters@[d] == old(self).clusters@[d]);
                    }
                    assert(self.clusters@[d].points@[k] == old(self).clusters@[d].points@[k]);
                    assert(old(self).point_ok(image, n, d, old(self).clusters@[d].points@[k]));
                }
            }
            assert forall|d: int| 0 <= d < self.clusters@.len() implies (#[trigger] self.clusters@[d]).points@.no_duplicates() by {
                if d == c {
                    assert forall|a: int, b: int|
                        0 <= a < new_c.points@.len() && 0 <= b < new_c.points@.len() && a
                            != b implies new_c.points@[a] != new_c.points@[b] by {
                        let last = old_c.points@.len() as int;
                        if a < last && b < last {
                            assert(old_c.points@.no_duplicates());
                        } else {
                            let i = if a < last {
                                a
                            } else {
                                b
                            };
                            assert(old(self).point_ok(image, n, c as int, old_c.points@[i]));
                        }
                    }
                } else {
                    assert(self.clusters@[d] == old(self).clusters@[d]);
                }
            }
            assert(old_c.wf());
            assert forall|d: int|
                0 <= d < self.clusters@.len() && (#[trigger] self.clusters@[d]).points@.len()
                    > 0 implies self.clusters@[d].wf() by {
                if d != c {
                    assert(self.clusters@[d] == old(self).clusters@[d]);
                }
            }
            assert forall|d: int| self.next <= d < self.clusters@.len() implies (#[trigger] self.clusters@[d]).points@.len() == 0 by {
                assert(old(self).clusters@[d].points@.len() == 0);
                assert(d != c);
                assert(self.clusters@[d] == old(self).clusters@[d]);
            }
        }
    }

    /// Starts a new cluster with the set pixel `(x, y)`, under the next
    /// free label.
    fn attach_new(
        &mut self,
        Ghost(image): Ghost<&BinaryImage>,
        Ghost(diagonal): Ghost<bool>,
        x: usize,
        y: usize,
    )
        requires
            old(self).inv(image, cell_index(x as int, y as int, image.width as int)),
            old(self).knit(image, diagonal),
            image.in_bounds(x as int, y as int),
            image.spec_get(x as int, y as int),
        ensures
            final(self).inv(image, cell_index(x as int, y as int, image.width as int) + 1),
            final(self).knit(image, diagonal),
            final(self).map@ == old(self).map@.update(
                cell_index(x as int, y as int, image.width as int),
                old(self).next,
            ),
            final(self).lists() == (
                if old(self).lists().1 < old(self).lists().0.len() {
                    old(self).lists().0.update(
                        old(self).lists().1,
                        seq![point_at(x as int, y as int)],
                    )
                } else {
                    old(self).lists().0.push(seq![point_at(x as int, y as int)])
                },
                old(self).lists().1 + 1,
            ),
    {
        let ghost w = image.width as int;
        let ghost n = cell_index(x as int, y as int, w);
        let pos = PointI32 { x: x as i32, y: y as i32 };
        proof {
            lemma_cell_index_bound(x as int, y as int, w, image.height as int);
        }
        let mut newcluster = Cluster::default();
        newcluster.add(pos);
        let label = self.next;
        if (label as usize) < self.clusters.len() {
            self.clusters[label as usize] = newcluster;
        } else {
            self.clusters.push(newcluster);
        }
        let idx: usize = y * self.width + x;
        self.map.set(idx, label);
        self.next = label + 1;
        proof {
            let new_c = self.clusters@[label as int];
            assert(new_c.points@ =~= seq![pos]);
            assert forall|d: int| 0 <= d < old(self).clusters@.len() && d != label implies #[trigger] self.clusters@[d]
                == old(self).clusters@[d] by {}
            if label < old(self).clusters@.len() {
                assert(self.lists().0 =~= old(self).lists().0.update(label as int, seq![pos]));
            } else {
                assert(self.lists().0 =~= old(self).lists().0.push(seq![pos]));
            }
            assert forall|d: int| 0 <= d < self.clusters@.len() implies all_connected(
                image,
                diagonal,
                (#[trigger] self.clusters@[d]).points@,
            ) by {
                if d == label {
                    lemma_connected_self(image, diagonal, cell_of(pos));
                    assert(new_c.points@[0] == pos);
                } else {
                    assert(all_connected(image, diagonal, old(self).clusters@[d].points@));
                }
            }
            assert forall|x2: int, y2: int|
                image.in_bounds(x2, y2) && cell_index(x2, y2, w) < n + 1
                    && #[trigger] image.spec_get(x2, y2) implies self.cell_ok(image, x2, y2) by {
                lemma_cell_index_bound(x2, y2, w, image.height as int);
                if cell_index(x2, y2, w) == n {
                    lemma_cell_index_injective(x2, y2, x as int, y as int, w);
                    assert(new_c.points@[0] == pos);
                } else {
                    assert(old(self).cell_ok(image, x2, y2));
                    let l = old(self).map@[cell_index(x2, y2, w)];
                    assert(old(self).clusters@[l as int].points@.len() > 0);
                    assert(l != label);
                    assert(self.clusters@[l as int] == old(self).clusters@[l as int]);
                }
            }
            assert forall|d: int, k: int|
                0 <= d < self.clusters@.len() && 0 <= k < self.clusters@[d].points@.len() implies self.point_ok(
                image,
                n + 1,
                d,
                #[trigger] self.clusters@[d].points@[k],
            ) by {
                if d != label {
                    assert(self.clusters@[d] == old(self).clusters@[d]);
                    assert(old(self).point_ok(image, n, d, old(self).clusters@[d].points@[k]));
                }
            }
            assert forall|d: int| 0 <= d < self.clusters@.len() implies (#[trigger] self.clusters@[d]).points@.no_duplicates() by {
                if d != label {
                    assert(self.clusters@[d] == old(self).clusters@[d]);
                }
            }
            assert forall|d: int|
                0 <= d < self.clusters@.len() && (#[trigger] self.clusters@[d]).points@.len()
                    > 0 implies self.clusters@[d].wf() by {
                if d != label {
                    assert(self.clusters@[d] == old(self).clusters@[d]);
                }
            }
        }
    }

    /// Joins the clusters of the pixel above `(x, y)` and the pixel to the
    /// left of it where they meet at `(x, y)`: where both are set and the
    /// pixel itself is set or diagonals count. Returns the labels of the
    /// pixel above and the pixel to the left.
    fn join(&mut self, image: &BinaryImage, x: usize, y: usize, diagonal: bool) -> (labels: (u32, u32))
        requires
            old(self).inv(image, cell_index(x as int, y as int, image.width as int)),
            old(self).knit(image, diagonal),
            joined(
                old(self).map@,
                image,
                diagonal,
                cell_index(x as int, y as int, image.width as int),
            ),
            image.in_bounds(x as int, y as int),
        ensures
            final(self).inv(image, cell_index(x as int, y as int, image.width as int)),
            final(self).knit(image, diagonal),
            joined(
                final(self).map@,
                image,
                diagonal,
                cell_index(x as int, y as int, image.width as int),
            ),
            image.spec_get_safe(x as int, y - 1) ==> labels.0 == final(self).map@[cell_index(
                x as int,
                y - 1,
                image.width as int,
            )],
            image.spec_get_safe(x - 1, y as int) ==> labels.1 == final(self).map@[cell_index(
                x - 1,
                y as int,
                image.width as int,
            )],
            (image.spec_get(x as int, y as int) || diagonal) && image.spec_get_safe(x as int, y - 1)
                && image.spec_get_safe(x - 1, y as int) ==> labels.0 == labels.1,
            final(self).lists() == spec_join(
                old(self).lists(),
                shown(image),
                diagonal,
                x as int,
                y as int,
            ),
    {
        let ghost w = image.width as int;
        let ghost n = cell_index(x as int, y as int, w);
        proof {
            lemma_cell_index_bound(x as int, y as int, w, image.height as int);
            if y > 0 {
                lemma_cell_index_bound(x as int, y - 1, w, image.height as int);
            }
            if x > 0 {
                lemma_cell_index_bound(x - 1, y as int, w, image.height as int);
            }
        }
        let v = image.get_pixel_safe(x as i32, y as i32);
        let v_up = image.get_pixel_safe(x as i32, y as i32 - 1);
        let v_left = image.get_pixel_safe(x as i32 - 1, y as i32);
        let mut cluster_up: u32 = if y > 0 {
            self.map[(y - 1) * self.width + x]
        } else {
            0
        };
        let mut cluster_left: u32 = if x > 0 {
            self.map[y * self.width + (x - 1)]
        } else {
            0
        };
        proof {
            assert(cell_index(x as int, y - 1, w) == n - w) by (nonlinear_arith)
                requires
                    n == cell_index(x as int, y as int, w),
            ;
            if v_up {
                assert(image.spec_get(x as int, y - 1));
                assert(self.cell_ok(image, x as int, y - 1));
                self.lemma_label_of(image, n, cluster_up as int, point_at(x as int, y - 1));
            }
            if v_left {
                assert(image.spec_get(x - 1, y as int));
                assert(self.cell_ok(image, x - 1, y as int));
                self.lemma_label_of(image, n, cluster_left as int, point_at(x - 1, y as int));
            }
        }
        let ghost up = PointI32 { x: x as i32, y: (y - 1) as i32 };
        let ghost left = PointI32 { x: (x - 1) as i32, y: y as i32 };
        let ghost here = (x as int, y as int);
        if (v || diagonal) && v_up && v_left && cluster_left != cluster_up {
            let ghost start = self.map@;
            proof {
                if diagonal {
                    lemma_connected_step(image, diagonal, cell_of(left), cell_of(up));
                } else {
                    lemma_connected_step(image, diagonal, cell_of(left), here);
                    lemma_connected_step(image, diagonal, here, cell_of(up));
                    lemma_connected_trans(image, diagonal, cell_of(left), here, cell_of(up));
                }
                lemma_connected_sym(image, diagonal, cell_of(left), cell_of(up));
            }
            if self.clusters[cluster_left as usize].size() <= self.clusters[cluster_up as usize].size() {
                self.combine(
                    Ghost(image),
                    Ghost(n),
                    Ghost(diagonal),
                    Ghost(left),
                    Ghost(up),
                    cluster_left,
                    cluster_up,
                );
                proof {
                    lemma_joined_relabel(
                        start,
                        self.map@,
                        image,
                        diagonal,
                        n,
                        cluster_left,
                        cluster_up,
                    );
                }
                if self.next > 0 && cluster_left == self.next - 1 && self.next as usize
                    == self.clusters.len() {
                    // the last label is free again
                    self.next -= 1;
                }
                cluster_left = cluster_up;
            } else {
                self.combine(
                    Ghost(image),
                    Ghost(n),
                    Ghost(diagonal),
                    Ghost(up),
                    Ghost(left),
                    cluster_up,
                    cluster_left,
                );
                proof {
                    lemma_joined_relabel(
                        start,
                        self.map@,
                        image,
                        diagonal,
                        n,
                        cluster_up,
                        cluster_left,
                    );
                }
                cluster_up = cluster_left;
            }
            proof {
                assert(image.spec_get(x as int, y - 1));
                assert(self.cell_ok(image, x as int, y - 1));
                assert(image.spec_get(x - 1, y as int));
                assert(self.cell_ok(image, x - 1, y as int));
            }
        }
        proof {
            if v_up {
                assert(image.spec_get(x as int, y - 1));
                assert(self.map@[cell_index(x as int, y - 1, w)] == cluster_up);
            }
            if v_left {
                assert(image.spec_get(x - 1, y as int));
                assert(self.map@[cell_index(x - 1, y as int, w)] == cluster_left);
            }
        }
        (cluster_up, cluster_left)
    }

    /// Scans the pixel `(x, y)`: joins the clusters of the pixel above and
    /// the pixel to the left where they meet here, then labels the pixel.
    fn scan(&mut self, image: &BinaryImage, rect: &mut BoundingRect, x: usize, y: usize, diagonal: bool)
        requires
            old(self).inv(image, cell_index(x as int, y as int, image.width as int)),
            old(self).knit(image, diagonal),
            joined(
                old(self).map@,
                image,
                diagonal,
                cell_index(x as int, y as int, image.width as int),
            ),
            image.in_bounds(x as int, y as int),
            old(rect).is_aabb_of(set_cells(image, cell_index(x as int, y as int, image.width as int))),
        ensures
            final(self).inv(image, cell_index(x as int, y as int, image.width as int) + 1),
            final(self).knit(image, diagonal),
            joined(
                final(self).map@,
                image,
                diagonal,
                cell_index(x as int, y as int, image.width as int) + 1,
            ),
            final(rect).is_aabb_of(
                set_cells(image, cell_index(x as int, y as int, image.width as int) + 1),
            ),
            final(self).lists() == spec_attach(
                spec_join(old(self).lists(), shown(image), diagonal, x as int, y as int),
                shown(image),
                diagonal,
                x as int,
                y as int,
            ),
    {
        let ghost w = image.width as int;
        let ghost n = cell_index(x as int, y as int, w);
        let (cluster_up, cluster_left) = self.join(image, x, y, diagonal);
        proof {
            lemma_cell_index_bound(x as int, y as int, w, image.height as int);
            lemma_set_cells_step(image, x as int, y as int);
            if y > 0 {
                lemma_cell_index_bound(x as int, y - 1, w, image.height as int);
            }
            if x > 0 {
                lemma_cell_index_bound(x - 1, y as int, w, image.height as int);
            }
            if x > 0 && y > 0 {
                lemma_cell_index_bound(x - 1, y - 1, w, image.height as int);
            }
        }
        let v = image.get_pixel_safe(x as i32, y as i32);
        let v_up = image.get_pixel_safe(x as i32, y as i32 - 1);
        let v_left = image.get_pixel_safe(x as i32 - 1, y as i32);
        let v_up_left = image.get_pixel_safe(x as i32 - 1, y as i32 - 1);
        let ghost up = PointI32 { x: x as i32, y: (y - 1) as i32 };
        let ghost left = PointI32 { x: (x - 1) as i32, y: y as i32 };
        let ghost up_left = PointI32 { x: (x - 1) as i32, y: (y - 1) as i32 };
        let ghost here = (x as int, y as int);
        let ghost mid = self.map@;
        proof {
            assert(cell_index(x as int, y - 1, w) == n - w) by (nonlinear_arith)
                requires
                    n == cell_index(x as int, y as int, w),
            ;
            assert(cell_index(x - 1, y - 1, w) == n - w - 1) by (nonlinear_arith)
                requires
                    n == cell_index(x as int, y as int, w),
            ;
            if v_up {
                assert(image.spec_get(x as int, y - 1));
                assert(self.cell_ok(image, x as int, y - 1));
                self.lemma_label_of(image, n, cluster_up as int, point_at(x as int, y - 1));
            }
            if v_left {
                assert(image.spec_get(x - 1, y as int));
                assert(self.cell_ok(image, x - 1, y as int));
                self.lemma_label_of(image, n, cluster_left as int, point_at(x - 1, y as int));
            }
            if v_up_left {
                assert(image.spec_get(x - 1, y - 1));
                assert(self.cell_ok(image, x - 1, y - 1));
                self.lemma_label_of(
                    image,
                    n,
                    self.map@[cell_index(x - 1, y - 1, w)] as int,
                    point_at(x - 1, y - 1),
                );
                if v_up {
                    assert(met(diagonal, w, x - 1, y - 1, x as int, y - 1, n));
                }
                if v_left {
                    assert(met(diagonal, w, x - 1, y - 1, x - 1, y as int, n));
                }
            }
        }
        if v {
            proof {
                old(rect).lemma_add_keeps_aabb(set_cells(image, n), x as int, y as int);
            }
            rect.add_x_y(x as i32, y as i32);
            if v_up {
                proof {
                    lemma_connected_step(image, diagonal, cell_of(up), here);
                }
                self.attach(Ghost(image), Ghost(diagonal), Ghost(up), x, y, cluster_up);
            } else if v_left {
                proof {
                    lemma_connected_step(image, diagonal, cell_of(left), here);
                }
                self.attach(Ghost(image), Ghost(diagonal), Ghost(left), x, y, cluster_left);
            } else if v_up_left && diagonal {
                proof {
                    lemma_connected_step(image, diagonal, cell_of(up_left), here);
                }
                let cluster_up_left: u32 = self.map[(y - 1) * self.width + (x - 1)];
                self.attach(Ghost(image), Ghost(diagonal), Ghost(up_left), x, y, cluster_up_left);
            } else {
                self.attach_new(Ghost(image), Ghost(diagonal), x, y);
            }
        } else {
            proof {
                self.lemma_skip(image, x as int, y as int);
            }
        }
        proof {
            lemma_joined_next(mid, self.map@, image, diagonal, x as int, y as int);
        }
    }
}

impl BinaryImage {
    /// Labels the connected components of the set pixels: neighbours are
    /// the pixels above, below, left and right, and with `diagonal` also
    /// the four diagonal ones. The clusters come in the order of their
    /// labels; the points of a cluster in the order in which the scan and
    /// the merges collected them, as `spec_labelled` tells.
    pub fn to_clusters(&self, diagonal: bool) -> (r: Clusters)
        requires
            labelling_fits(self),
        ensures
            r.partitions(self),
            r.components(self, diagonal),
            lists_of(r.clusters@) == filled(
                spec_labelled(
                    shown(self),
                    self.width as int,
                    diagonal,
                    self.width * self.height,
                ).0,
            ),
            r.is_labelling_of(self, diagonal),
    {
        let size: usize = self.width * self.height;
        let mut map: Vec<u32> = Vec::new();
        let mut i: usize = 0;
        while i < size
            invariant
                i <= size,
                map@.len() == i,
            decreases size - i,
        {
            map.push(0);
            i += 1;
        }
        let mut lab = Labeller { clusters: Vec::new(), map, next: 0, width: self.width };
        proof {
            assert(lab.lists().0 =~= Seq::<Seq<PointI32>>::empty());
        }
        let mut rect = BoundingRect::default();
        let ghost w = self.width as int;
        let mut y: usize = 0;
        while y < self.height
            invariant
                y <= self.height,
                w == self.width,
                lab.inv(self, y * w),
                lab.knit(self, diagonal),
                lab.lists() == spec_labelled(shown(self), w, diagonal, y * w),
                joined(lab.map@, self, diagonal, y * w),
                rect.is_aabb_of(set_cells(self, y * w)),
            decreases self.height - y,
        {
            let mut x: usize = 0;
            while x < self.width
                invariant
                    x <= self.width,
                    y < self.height,
                    w == self.width,
                    lab.inv(self, cell_index(x as int, y as int, w)),
                    lab.knit(self, diagonal),
                    lab.lists() == spec_labelled(
                        shown(self),
                        w,
                        diagonal,
                        cell_index(x as int, y as int, w),
                    ),
                    joined(lab.map@, self, diagonal, cell_index(x as int, y as int, w)),
                    rect.is_aabb_of(set_cells(self, cell_index(x as int, y as int, w))),
                decreases self.width - x,
            {
                proof {
                    let n = cell_index(x as int, y as int, w);
                    vstd::arithmetic::div_mod::lemma_fundamental_div_mod_converse(
                        n,
                        w,
                        y as int,
                        x as int,
                    );
                }
                lab.scan(self, &mut rect, x, y, diagonal);
                x += 1;
            }
            assert(cell_index(w, y as int, w) == (y + 1) * w) by (nonlinear_arith);
            y += 1;
        }
        assert(self.height * w == w * self.height) by (nonlinear_arith);
        let Labeller { clusters, map, next, width } = lab;
        let mut clusters = clusters;
        let ghost before = clusters@;
        let ghost mut src: Seq<int> = Seq::empty();
        proof {
            assert(lists_of(before) =~= lab.lists().0);
            assert(lists_of(before).take(0) =~= Seq::<Seq<PointI32>>::empty());
            reveal(Seq::filter);
        }
        let mut out: Vec<Cluster> = Vec::new();
        let total = clusters.len();
        let mut c: usize = 0;
        while c < total
            invariant
                c <= total,
                total == before.len(),
                clusters@.len() == before.len(),
                forall|j: int| c <= j < before.len() ==> clusters@[j] == before[j],
                lists_of(out@) == filled(lists_of(before).take(c as int)),
                src.len() == out@.len(),
                forall|d: int|
                    0 <= d < out@.len() ==> 0 <= #[trigger] src[d] < c && out@[d] == before[src[d]]
                        && before[src[d]].points@.len() > 0,
                forall|d: int, e: int| 0 <= d < e < out@.len() ==> src[d] < src[e],
                forall|j: int|
                    0 <= j < c && (#[trigger] before[j]).points@.len() > 0 ==> exists|d: int|
                        0 <= d < out@.len() && #[trigger] src[d] == j,
            decreases total - c,
        {
            let mut taken = Cluster::default();
            core::mem::swap(&mut clusters[c], &mut taken);
            proof {
                let all = lists_of(before);
                assert(all.take(c + 1) =~= all.take(c as int).push(taken.points@));
                lemma_filled_push(all.take(c as int), taken.points@);
            }
            let ghost kept = out@;
            if taken.size() != 0 {
                out.push(taken);
                proof {
                    let ghost prev = src;
                    src = src.push(c as int);
                    assert forall|j: int|
                        0 <= j < c + 1 && (#[trigger] before[j]).points@.len() > 0 implies exists|
                        d: int,
                    |
                        0 <= d < out@.len() && #[trigger] src[d] == j by {
                        if j < c {
                            let d = choose|d: int| 0 <= d < prev.len() && #[trigger] prev[d] == j;
                            assert(src[d] == j);
                        } else {
                            assert(src[out@.len() - 1] == j);
                        }
                    }
                }
            }
            proof {
                if taken.points@.len() > 0 {
                    assert(lists_of(out@) =~= lists_of(kept).push(taken.points@));
                }
            }
            c += 1;
        }
        let r = Clusters { clusters: out, rect };
        proof {
            assert(lists_of(before).take(total as int) =~= lists_of(before));
            let n = self.width * self.height;
            assert forall|d: int| 0 <= d < r.clusters@.len() implies {
                &&& (#[trigger] r.clusters@[d]).points@.len() > 0
                &&& r.clusters@[d].wf()
                &&& r.clusters@[d].points@.no_duplicates()
                &&& r.clusters@[d].within(self)
            } by {
                let j = src[d];
                assert(r.clusters@[d] == before[j]);
                assert forall|k: int| 0 <= k < before[j].points@.len() implies self.spec_get_safe(
                    (#[trigger] before[j].points@[k]).x as int,
                    before[j].points@[k].y as int,
                ) by {
                    assert(lab.point_ok(self, n, j, before[j].points@[k]));
                }
            }
            assert forall|x: int, y: int|
                self.in_bounds(x, y) && #[trigger] self.spec_get(x, y) implies exists|d: int|
                0 <= d < r.clusters@.len() && (#[trigger] r.clusters@[d]).points@.contains(
                    PointI32 { x: x as i32, y: y as i32 },
                ) by {
                lemma_cell_index_bound(x, y, w, self.height as int);
                assert(lab.cell_ok(self, x, y));
                let l = lab.map@[cell_index(x, y, w)] as int;
                assert(before[l].points@.len() > 0);
                let d = choose|d: int| 0 <= d < out@.len() && #[trigger] src[d] == l;
                assert(r.clusters@[d] == before[l]);
            }
            assert forall|c1: int, k1: int, c2: int, k2: int|
                0 <= c1 < r.clusters@.len() && 0 <= k1 < r.clusters@[c1].points@.len() && 0 <= c2
                    < r.clusters@.len() && 0 <= k2 < r.clusters@[c2].points@.len()
                    && #[trigger] r.clusters@[c1].points@[k1]
                    == #[trigger] r.clusters@[c2].points@[k2] implies c1 == c2 by {
                let j1 = src[c1];
                let j2 = src[c2];
                assert(lab.point_ok(self, n, j1, before[j1].points@[k1]));
                assert(lab.point_ok(self, n, j2, before[j2].points@[k2]));
                if c1 < c2 {
                    assert(src[c1] < src[c2]);
                } else if c2 < c1 {
                    assert(src[c2] < src[c1]);
                }
            }
            assert forall|d: int| 0 <= d < r.clusters@.len() implies all_connected(
                self,
                diagonal,
                (#[trigger] r.clusters@[d]).points@,
            ) by {
                assert(r.clusters@[d] == before[src[d]]);
                assert(all_connected(self, diagonal, lab.clusters@[src[d]].points@));
            }
            assert forall|c1: int, k1: int, c2: int, k2: int|
                0 <= c1 < r.clusters@.len() && 0 <= k1 < r.clusters@[c1].points@.len() && 0 <= c2
                    < r.clusters@.len() && 0 <= k2 < r.clusters@[c2].points@.len() && connected(
                    self,
                    diagonal,
                    cell_of(#[trigger] r.clusters@[c1].points@[k1]),
                    cell_of(#[trigger] r.clusters@[c2].points@[k2]),
                ) implies c1 == c2 by {
                let j1 = src[c1];
                let j2 = src[c2];
                let pa = before[j1].points@[k1];
                let pb = before[j2].points@[k2];
                assert(lab.point_ok(self, n, j1, pa));
                assert(lab.point_ok(self, n, j2, pb));
                let path = choose|path: Seq<(int, int)>|
                    #[trigger] is_chain(self, diagonal, path) && path[0] == cell_of(pa)
                        && path.last() == cell_of(pb);
                lemma_chain_label(lab.map@, self, diagonal, path);
                assert(j1 == j2);
                if c1 < c2 {
                    assert(src[c1] < src[c2]);
                } else if c2 < c1 {
                    assert(src[c2] < src[c1]);
                }
            }
        }
        r
    }
}

} // verus!
