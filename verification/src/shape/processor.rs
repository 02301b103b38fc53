//! Morphing one shape into another.

use vstd::prelude::*;

use crate::bits::bits;
use crate::clusters::labelling_fits;
use crate::clusters::Clusters;
use crate::grid::cell_index;
use crate::image::count_set;
use crate::image::BinaryImage;
use crate::point::PointI32;
use crate::shape::geometry::boundary_cells;
use crate::shape::geometry::is_boundary;
use crate::shape::geometry::Shape;
use crate::shape::image_operations::stamp;
use crate::shape::image_operations::within_brush;

verus! {

/// Morphologically transforms a shape into another: the pixels that both
/// shapes share grow, one ring of pixels with every tick, into the pixels
/// that either shape has.
pub struct AverageShape {
    from: BinaryImage,
    to: BinaryImage,
    morph: BinaryImage,
    boundary: Vec<PointI32>,
    counter: u32,
    stop_at: u32,
}

/// Does the pixel at `(x, y)` touch a set pixel of `m` above, below, left
/// or right of it?
pub open spec fn touches(m: &BinaryImage, x: int, y: int) -> bool {
    m.spec_get_safe(x - 1, y) || m.spec_get_safe(x + 1, y) || m.spec_get_safe(x, y - 1)
        || m.spec_get_safe(x, y + 1)
}

/// The pixel at `(x, y)` after `from` has grown into `to` for `k` ticks:
/// with every tick, the pixels of `to` that touch the shape join it.
pub open spec fn grown_at(from: &BinaryImage, to: &BinaryImage, k: nat, x: int, y: int) -> bool
    decreases k,
{
    if k == 0 {
        from.spec_get(x, y)
    } else {
        let k1 = (k - 1) as nat;
        grown_at(from, to, k1, x, y) || (to.spec_get(x, y) && ((from.in_bounds(x - 1, y)
            && grown_at(from, to, k1, x - 1, y)) || (from.in_bounds(x + 1, y) && grown_at(
            from,
            to,
            k1,
            x + 1,
            y,
        )) || (from.in_bounds(x, y - 1) && grown_at(from, to, k1, x, y - 1)) || (from.in_bounds(
            x,
            y + 1,
        ) && grown_at(from, to, k1, x, y + 1))))
    }
}

/// The image shows `from` after `k` ticks of growing into `to`.
pub open spec fn shows_grown(image: &BinaryImage, from: &BinaryImage, to: &BinaryImage, k: nat) -> bool {
    &&& image.width == from.width
    &&& image.height == from.height
    &&& forall|x: int, y: int|
        from.in_bounds(x, y) ==> #[trigger] image.spec_get(x, y) == grown_at(from, to, k, x, y)
}

/// After `k` ticks the shape has stopped growing.
pub open spec fn settled(from: &BinaryImage, to: &BinaryImage, k: nat) -> bool {
    forall|x: int, y: int|
        from.in_bounds(x, y) ==> #[trigger] grown_at(from, to, k + 1, x, y) == grown_at(
            from,
            to,
            k,
            x,
            y,
        )
}

/// Is `(x, y)` above, below, left or right of `p`?
pub open spec fn beside(p: PointI32, x: int, y: int) -> bool {
    (p.x == x && (p.y == y - 1 || p.y == y + 1)) || (p.y == y && (p.x == x - 1 || p.x == x + 1))
}

/// Is `(x, y)` beside one of the first `k` points?
pub open spec fn reached(points: Seq<PointI32>, k: int, x: int, y: int) -> bool {
    exists|j: int| 0 <= j < k && beside(#[trigger] points[j], x, y)
}

/// The number of set pixels of an image.
pub open spec fn cells_set(m: &BinaryImage) -> int {
    count_set(bits(m.pixels), m.width * m.height)
}

/// Setting a bit among the first `n` that was not set adds one to their
/// count; what changes no bit among them keeps it.
proof fn lemma_count_update(b: Seq<bool>, i: int, n: int)
    requires
        0 <= i < b.len(),
        0 <= n <= b.len(),
        !b[i],
    ensures
        count_set(b.update(i, true), n) == count_set(b, n) + (if i < n {
            1int
        } else {
            0int
        }),
    decreases n,
{
    if n > 0 {
        lemma_count_update(b, i, n - 1);
    }
}

/// No more bits are set than there are.
proof fn lemma_count_bound(b: Seq<bool>, n: int)
    requires
        0 <= n,
    ensures
        0 <= count_set(b, n) <= n,
    decreases n,
{
    if n > 0 {
        lemma_count_bound(b, n - 1);
    }
}

/// Sets the pixel at `(x, y)` of `morph` if it is unset there and set in
/// `to`.
fn grow_into(morph: &mut BinaryImage, to: &BinaryImage, x: i32, y: i32) -> (set: bool)
    requires
        old(morph).wf(),
        to.wf(),
        to.width == old(morph).width,
        to.height == old(morph).height,
    ensures
        final(morph).wf(),
        final(morph).width == old(morph).width,
        final(morph).height == old(morph).height,
        set == (old(morph).in_bounds(x as int, y as int) && !old(morph).spec_get(x as int, y as int)
            && to.spec_get(x as int, y as int)),
        forall|x2: int, y2: int|
            old(morph).in_bounds(x2, y2) ==> #[trigger] final(morph).spec_get(x2, y2) == (old(
                morph,
            ).spec_get(x2, y2) || (set && x2 == x && y2 == y)),
        cells_set(final(morph)) == cells_set(old(morph)) + (if set {
            1int
        } else {
            0int
        }),
{
    if !morph.get_pixel_safe(x, y) && to.get_pixel_safe(x, y) {
        proof {
            morph.lemma_in_store(x as int, y as int);
            lemma_count_update(
                bits(morph.pixels),
                cell_index(x as int, y as int, morph.width as int),
                morph.width * morph.height,
            );
        }
        morph.set_pixel_safe(x, y, true);
        true
    } else {
        false
    }
}

impl Default for AverageShape {
    fn default() -> (s: Self)
        ensures
            s.ticks() == 0,
            s.limit() == 0,
    {
        AverageShape {
            from: BinaryImage::default(),
            to: BinaryImage::default(),
            morph: BinaryImage::default(),
            boundary: Vec::new(),
            counter: 0,
            stop_at: 0,
        }
    }
}

impl AverageShape {
    /// The shape that grows.
    pub closed spec fn source(&self) -> BinaryImage {
        self.from
    }

    /// The shape that it grows into.
    pub closed spec fn target(&self) -> BinaryImage {
        self.to
    }

    /// The shape as it has grown so far.
    pub closed spec fn shape(&self) -> BinaryImage {
        self.morph
    }

    /// The number of ticks since the last reset.
    pub closed spec fn ticks(&self) -> u32 {
        self.counter
    }

    /// The number of ticks at which the growing stops.
    pub closed spec fn limit(&self) -> u32 {
        self.stop_at
    }

    /// The two shapes have one size, small enough for their pixels to be
    /// counted.
    pub closed spec fn ready(&self) -> bool {
        &&& labelling_fits(&self.from)
        &&& labelling_fits(&self.to)
        &&& self.to.width == self.from.width
        &&& self.to.height == self.from.height
    }

    /// The growing shape has the size of the two others, and the list of
    /// its boundary holds set pixels of it, among them every one that can
    /// still grow.
    pub closed spec fn wf(&self) -> bool {
        &&& self.ready()
        &&& self.morph.wf()
        &&& self.morph.width == self.from.width
        &&& self.morph.height == self.from.height
        &&& forall|k: int|
            0 <= k < self.boundary@.len() ==> self.morph.spec_get_safe(
                (#[trigger] self.boundary@[k]).x as int,
                self.boundary@[k].y as int,
            )
        &&& forall|x: int, y: int|
            self.morph.in_bounds(x, y) && self.to.spec_get(x, y) && !self.morph.spec_get(x, y)
                && #[trigger] touches(&self.morph, x, y) ==> reached(
                self.boundary@,
                self.boundary@.len() as int,
                x,
                y,
            )
    }

    pub fn new() -> (s: Self)
        ensures
            s.ticks() == 0,
            s.limit() == 0,
    {
        AverageShape {
            from: BinaryImage::default(),
            to: BinaryImage::default(),
            morph: BinaryImage::default(),
            boundary: Vec::new(),
            counter: 0,
            stop_at: 0,
        }
    }

    /// Takes a disc of radius 50 as the shape that grows and the square
    /// around it as the shape that it grows into, both in the middle of a
    /// frame 128 pixels wide and high.
    pub fn init_circle_square(&mut self)
        ensures
            final(self).wf(),
            final(self).limit() == old(self).limit(),
            final(self).ticks() == 0,
            final(self).source().width == 128,
            final(self).source().height == 128,
            forall|x: int, y: int|
                0 <= x < 128 && 0 <= y < 128 ==> #[trigger] final(self).source().spec_get(x, y)
                    == within_brush(x - 64, y - 64, 50),
            forall|x: int, y: int|
                0 <= x < 128 && 0 <= y < 128 ==> #[trigger] final(self).target().spec_get(x, y) == (
                14 <= x < 114 && 14 <= y < 114),
            shows_grown(&final(self).shape(), &final(self).source(), &final(self).target(), 0),
    {
        let size: usize = 128;
        let mut circle = BinaryImage::new_w_h(size, size);
        stamp(&mut circle, 64, 64, 50);
        let mut square = BinaryImage::new_w_h(size, size);
        let mut y: usize = 14;
        while y < 114
            invariant
                square.wf(),
                square.width == 128,
                square.height == 128,
                14 <= y <= 114,
                forall|x2: int, y2: int|
                    0 <= x2 < 128 && 0 <= y2 < 128 ==> #[trigger] square.spec_get(x2, y2) == (14
                        <= x2 < 114 && 14 <= y2 < y),
            decreases 114 - y,
        {
            let mut x: usize = 14;
            while x < 114
                invariant
                    square.wf(),
                    square.width == 128,
                    square.height == 128,
                    14 <= y < 114,
                    14 <= x <= 114,
                    forall|x2: int, y2: int|
                        0 <= x2 < 128 && 0 <= y2 < 128 ==> #[trigger] square.spec_get(x2, y2) == (14
                            <= x2 < 114 && (14 <= y2 < y || (y2 == y && x2 < x))),
                decreases 114 - x,
            {
                proof {
                    square.lemma_in_store(x as int, y as int);
                }
                square.set_pixel(x, y, true);
                x += 1;
            }
            y += 1;
        }
        proof {
            assert forall|x: int, y: int|
                0 <= x < 128 && 0 <= y < 128 && #[trigger] within_brush(
                    x - 64,
                    y - 64,
                    50,
                ) implies 14 <= x < 114 && 14 <= y < 114 by {
                crate::shape::image_operations::lemma_brush_reach(x - 64, y - 64, 50);
            }
        }
        self.init(circle, square);
    }

    /// Takes the pixels that both images share as the shape that grows and
    /// the pixels that either has as the shape that it grows into. Returns
    /// whether the two have the same number of clusters; if they have not,
    /// the one cannot be morphed into the other.
    pub fn init(&mut self, from: BinaryImage, to: BinaryImage) -> (ok: bool)
        requires
            labelling_fits(&from),
            labelling_fits(&to),
            from.width == to.width,
            from.height == to.height,
            from.spec_len() + 7 <= usize::MAX,
        ensures
            final(self).wf(),
            final(self).limit() == old(self).limit(),
            final(self).ticks() == 0,
            final(self).source().width == from.width,
            final(self).source().height == from.height,
            forall|x: int, y: int|
                from.in_bounds(x, y) ==> #[trigger] final(self).source().spec_get(x, y) == (
                from.spec_get(x, y) && to.spec_get(x, y)),
            forall|x: int, y: int|
                from.in_bounds(x, y) ==> #[trigger] final(self).target().spec_get(x, y) == (
                from.spec_get(x, y) || to.spec_get(x, y)),
            shows_grown(&final(self).shape(), &final(self).source(), &final(self).target(), 0),
            exists|a: Clusters, b: Clusters|
                a.is_labelling_of(&final(self).source(), false) && b.is_labelling_of(
                    &final(self).target(),
                    false,
                ) && ok == (a.clusters@.len() == b.clusters@.len()),
    {
        self.from = from.intersect(&to);
        self.to = from.union(&to);
        let from_clusters = self.from.to_clusters(false);
        let to_clusters = self.to.to_clusters(false);
        proof {
            assert(from_clusters.is_labelling_of(&self.from, false));
            assert(to_clusters.is_labelling_of(&self.to, false));
        }
        self.reset();
        from_clusters.len() == to_clusters.len()
    }

    /// Starts the growing again.
    pub fn reset(&mut self)
        requires
            old(self).ready(),
        ensures
            final(self).wf(),
            final(self).source() == old(self).source(),
            final(self).target() == old(self).target(),
            final(self).limit() == old(self).limit(),
            final(self).ticks() == 0,
            shows_grown(&final(self).shape(), &final(self).source(), &final(self).target(), 0),
    {
        self.morph = self.from.clone();
        self.boundary = Shape::image_boundary_list(&self.morph);
        self.counter = 0;
        proof {
            let m = &self.morph;
            let w = m.width as int;
            let n = m.width * m.height;
            let f = |x: int, y: int| is_boundary(m, x, y);
            let cells = boundary_cells(m, n);
            if w > 0 {
                crate::grid::lemma_raster_filter_members(w, n, f);
            }
            assert forall|k: int| 0 <= k < self.boundary@.len() implies self.morph.spec_get_safe(
                (#[trigger] self.boundary@[k]).x as int,
                self.boundary@[k].y as int,
            ) by {
                let c = cells[k];
                crate::grid::lemma_cell_index_bound(c.0, c.1, w, c.1 + 1);
                assert(c.1 < m.height) by (nonlinear_arith)
                    requires
                        cell_index(c.0, c.1, w) < m.width * m.height,
                        cell_index(c.0, c.1, w) == c.1 * w + c.0,
                        0 <= c.0 < w,
                        w == m.width,
                        0 <= c.1,
                ;
            }
            assert forall|x: int, y: int|
                self.morph.in_bounds(x, y) && self.to.spec_get(x, y) && !self.morph.spec_get(x, y)
                    && #[trigger] touches(&self.morph, x, y) implies reached(
                self.boundary@,
                self.boundary@.len() as int,
                x,
                y,
            ) by {
                let (qx, qy) = if m.spec_get_safe(x - 1, y) {
                    (x - 1, y)
                } else if m.spec_get_safe(x + 1, y) {
                    (x + 1, y)
                } else if m.spec_get_safe(x, y - 1) {
                    (x, y - 1)
                } else {
                    (x, y + 1)
                };
                assert(f(qx, qy));
                m.lemma_in_store(qx, qy);
                assert(cells.contains((qx, qy)));
                let j = choose|j: int| 0 <= j < cells.len() && cells[j] == (qx, qy);
                assert(beside(self.boundary@[j], x, y));
            }
        }
    }

    /// Grows the shape by one ring of pixels: every pixel of the target
    /// that touches the shape joins it. Returns true when the number of
    /// ticks has reached the limit, or when nothing could grow.
    pub fn tick(&mut self) -> (done: bool)
        requires
            old(self).wf(),
            old(self).ticks() < u32::MAX,
        ensures
            final(self).wf(),
            final(self).source() == old(self).source(),
            final(self).target() == old(self).target(),
            final(self).limit() == old(self).limit(),
            final(self).ticks() == old(self).ticks() + 1,
            final(self).shape().width == old(self).shape().width,
            final(self).shape().height == old(self).shape().height,
            forall|x: int, y: int|
                old(self).shape().in_bounds(x, y) ==> #[trigger] final(self).shape().spec_get(x, y)
                    == (old(self).shape().spec_get(x, y) || (old(self).target().spec_get(x, y)
                    && touches(&old(self).shape(), x, y))),
            done == (final(self).ticks() == final(self).limit() || cells_set(&final(self).shape())
                == cells_set(&old(self).shape())),
            cells_set(&final(self).shape()) >= cells_set(&old(self).shape()),
            cells_set(&final(self).shape()) == cells_set(&old(self).shape()) ==> forall|
                x: int,
                y: int,
            |
                old(self).shape().in_bounds(x, y) ==> #[trigger] final(self).shape().spec_get(x, y)
                    == old(self).shape().spec_get(x, y),
    {
        let ghost before = self.morph;
        let ghost old_boundary = self.boundary@;
        let mut grew: bool = false;
        let mut new_boundary: Vec<PointI32> = Vec::new();
        let n = self.boundary.len();
        let mut k: usize = 0;
        while k < n
            invariant
                old(self).wf(),
                before == old(self).morph,
                old_boundary == old(self).boundary@,
                self.boundary@ == old_boundary,
                self.from == old(self).from,
                self.to == old(self).to,
                self.counter == old(self).counter,
                self.stop_at == old(self).stop_at,
                self.morph.wf(),
                self.morph.width == before.width,
                self.morph.height == before.height,
                n == old_boundary.len(),
                k <= n,
                forall|x: int, y: int|
                    before.in_bounds(x, y) ==> #[trigger] self.morph.spec_get(x, y) == (
                    before.spec_get(x, y) || (self.to.spec_get(x, y) && reached(
                        old_boundary,
                        k as int,
                        x,
                        y,
                    ))),
                forall|j: int|
                    0 <= j < new_boundary@.len() ==> self.morph.spec_get_safe(
                        (#[trigger] new_boundary@[j]).x as int,
                        new_boundary@[j].y as int,
                    ),
                forall|x: int, y: int|
                    before.in_bounds(x, y) && #[trigger] self.morph.spec_get(x, y)
                        && !before.spec_get(x, y) ==> new_boundary@.contains(
                        PointI32 { x: x as i32, y: y as i32 },
                    ),
                cells_set(&self.morph) >= cells_set(&before),
                grew == (cells_set(&self.morph) > cells_set(&before)),
                !grew ==> forall|x: int, y: int|
                    before.in_bounds(x, y) ==> #[trigger] self.morph.spec_get(x, y)
                        == before.spec_get(x, y),
            decreases n - k,
        {
            let p = self.boundary[k];
            assert(before.spec_get_safe(p.x as int, p.y as int));
            let ghost m0 = self.morph;
            let ghost b0 = new_boundary@;
            let s1 = grow_into(&mut self.morph, &self.to, p.x, p.y - 1);
            if s1 {
                new_boundary.push(PointI32 { x: p.x, y: p.y - 1 });
            }
            let ghost b1 = new_boundary@;
            let s2 = grow_into(&mut self.morph, &self.to, p.x + 1, p.y);
            if s2 {
                new_boundary.push(PointI32 { x: p.x + 1, y: p.y });
            }
            let ghost b2 = new_boundary@;
            let s3 = grow_into(&mut self.morph, &self.to, p.x, p.y + 1);
            if s3 {
                new_boundary.push(PointI32 { x: p.x, y: p.y + 1 });
            }
            let ghost b3 = new_boundary@;
            let s4 = grow_into(&mut self.morph, &self.to, p.x - 1, p.y);
            if s4 {
                new_boundary.push(PointI32 { x: p.x - 1, y: p.y });
            }
            let ghost b4 = new_boundary@;
            let set = s1 || s2 || s3 || s4;
            if !set {
                new_boundary.push(p);
            } else {
                grew = true;
            }
            proof {
                assert forall|x: int, y: int| before.in_bounds(x, y) implies #[trigger] self.morph.spec_get(
                    x,
                    y,
                ) == (before.spec_get(x, y) || (self.to.spec_get(x, y) && reached(
                    old_boundary,
                    k + 1,
                    x,
                    y,
                ))) by {
                    assert(self.morph.spec_get(x, y) == (m0.spec_get(x, y) || (self.to.spec_get(
                        x,
                        y,
                    ) && beside(p, x, y))));
                    if reached(old_boundary, k + 1, x, y) {
                        let j = choose|j: int| 0 <= j < k + 1 && beside(#[trigger] old_boundary[j], x, y);
                        if j < k {
                            assert(reached(old_boundary, k as int, x, y));
                        }
                    }
                    if reached(old_boundary, k as int, x, y) {
                        let j = choose|j: int| 0 <= j < k && beside(#[trigger] old_boundary[j], x, y);
                        assert(0 <= j < k + 1 && beside(old_boundary[j], x, y));
                    }
                    if beside(p, x, y) {
                        assert(beside(old_boundary[k as int], x, y));
                    }
                }
                assert forall|j: int| 0 <= j < new_boundary@.len() implies self.morph.spec_get_safe(
                    (#[trigger] new_boundary@[j]).x as int,
                    new_boundary@[j].y as int,
                ) by {
                    if j < b0.len() {
                        assert(new_boundary@[j] == b0[j]);
                        assert(m0.spec_get_safe(b0[j].x as int, b0[j].y as int));
                    }
                }
                assert forall|x: int, y: int|
                    before.in_bounds(x, y) && #[trigger] self.morph.spec_get(x, y)
                        && !before.spec_get(x, y) implies new_boundary@.contains(
                    PointI32 { x: x as i32, y: y as i32 },
                ) by {
                    let q = PointI32 { x: x as i32, y: y as i32 };
                    if m0.spec_get(x, y) {
                        assert(b0.contains(q));
                        let j = choose|j: int| 0 <= j < b0.len() && b0[j] == q;
                        assert(new_boundary@[j] == q);
                    } else {
                        assert(beside(p, x, y));
                        if x == p.x && y == p.y - 1 {
                            assert(s1);
                            let j = b0.len() as int;
                            assert(b1[j] == q && b2[j] == q && b3[j] == q && b4[j] == q);
                            assert(new_boundary@[j] == q);
                        } else if x == p.x + 1 && y == p.y {
                            assert(s2);
                            let j = b1.len() as int;
                            assert(b2[j] == q && b3[j] == q && b4[j] == q);
                            assert(new_boundary@[j] == q);
                        } else if x == p.x && y == p.y + 1 {
                            assert(s3);
                            let j = b2.len() as int;
                            assert(b3[j] == q && b4[j] == q);
                            assert(new_boundary@[j] == q);
                        } else {
                            assert(s4);
                            let j = b3.len() as int;
                            assert(b4[j] == q);
                            assert(new_boundary@[j] == q);
                        }
                    }
                }
            }
            k += 1;
        }
        self.boundary = new_boundary;
        self.counter += 1;
        proof {
            let to = self.to;
            assert forall|x: int, y: int| before.in_bounds(x, y) implies #[trigger] self.morph.spec_get(
                x,
                y,
            ) == (before.spec_get(x, y) || (to.spec_get(x, y) && touches(&before, x, y))) by {
                if !before.spec_get(x, y) && to.spec_get(x, y) {
                    if reached(old_boundary, n as int, x, y) {
                        let j = choose|j: int| 0 <= j < n && beside(#[trigger] old_boundary[j], x, y);
                        assert(before.spec_get_safe(old_boundary[j].x as int, old_boundary[j].y as int));
                    }
                    if touches(&before, x, y) {
                        assert(reached(old_boundary, n as int, x, y));
                    }
                }
            }
            assert forall|x: int, y: int|
                self.morph.in_bounds(x, y) && self.to.spec_get(x, y) && !self.morph.spec_get(x, y)
                    && #[trigger] touches(&self.morph, x, y) implies reached(
                self.boundary@,
                self.boundary@.len() as int,
                x,
                y,
            ) by {
                let (qx, qy) = if self.morph.spec_get_safe(x - 1, y) {
                    (x - 1, y)
                } else if self.morph.spec_get_safe(x + 1, y) {
                    (x + 1, y)
                } else if self.morph.spec_get_safe(x, y - 1) {
                    (x, y - 1)
                } else {
                    (x, y + 1)
                };
                assert(self.morph.spec_get(qx, qy));
                if before.spec_get(qx, qy) {
                    assert(touches(&before, x, y));
                    assert(self.morph.spec_get(x, y));
                } else {
                    let q = PointI32 { x: qx as i32, y: qy as i32 };
                    assert(self.boundary@.contains(q));
                    let j = choose|j: int| 0 <= j < self.boundary@.len() && self.boundary@[j] == q;
                    assert(beside(self.boundary@[j], x, y));
                }
            }
        }
        if self.counter == self.stop_at {
            return true;
        }
        !grew
    }

    /// The shape after half as many ticks as it took since the last reset.
    /// It grows anew, from the start, and stops when it has grown for
    /// that many ticks or can grow no more.
    pub fn result(&mut self) -> (image: BinaryImage)
        requires
            old(self).wf(),
        ensures
            final(self).source() == old(self).source(),
            final(self).target() == old(self).target(),
            final(self).limit() == old(self).ticks() / 2,
            final(self).ticks() >= 1,
            final(self).limit() >= 1 ==> final(self).ticks() <= final(self).limit(),
            shows_grown(
                &image,
                &old(self).source(),
                &old(self).target(),
                final(self).ticks() as nat,
            ),
            final(self).ticks() == final(self).limit() || settled(
                &old(self).source(),
                &old(self).target(),
                (final(self).ticks() - 1) as nat,
            ),
            forall|j: nat|
                j + 1 < final(self).ticks() ==> !settled(&old(self).source(), &old(self).target(), j),
    {
        self.stop_at = self.counter / 2;
        self.reset();
        self.run();
        let mut image = BinaryImage::default();
        core::mem::swap(&mut image, &mut self.morph);
        image
    }

    /// Ticks until a tick says that the growing is done.
    fn run(&mut self)
        requires
            old(self).wf(),
            old(self).ticks() == 0,
            shows_grown(&old(self).shape(), &old(self).source(), &old(self).target(), 0),
        ensures
            final(self).wf(),
            final(self).source() == old(self).source(),
            final(self).target() == old(self).target(),
            final(self).limit() == old(self).limit(),
            final(self).ticks() >= 1,
            final(self).limit() >= 1 ==> final(self).ticks() <= final(self).limit(),
            shows_grown(
                &final(self).shape(),
                &old(self).source(),
                &old(self).target(),
                final(self).ticks() as nat,
            ),
            final(self).ticks() == final(self).limit() || settled(
                &old(self).source(),
                &old(self).target(),
                (final(self).ticks() - 1) as nat,
            ),
            forall|j: nat|
                j + 1 < final(self).ticks() ==> !settled(&old(self).source(), &old(self).target(), j),
    {
        let ghost from = self.from;
        let ghost to = self.to;
        let ghost size = self.from.width * self.from.height;
        proof {
            lemma_count_bound(bits(self.morph.pixels), size);
        }
        loop
            invariant_except_break
                self.wf(),
                self.from == from,
                self.to == to,
                self.stop_at == old(self).stop_at,
                size == from.width * from.height,
                size < u32::MAX,
                shows_grown(&self.morph, &from, &to, self.counter as nat),
                self.counter <= cells_set(&self.morph) <= size,
                self.stop_at >= 1 ==> self.counter < self.stop_at,
                forall|j: nat| j < self.counter ==> !settled(&from, &to, j),
            ensures
                self.wf(),
                self.from == from,
                self.to == to,
                self.stop_at == old(self).stop_at,
                self.counter >= 1,
                self.stop_at >= 1 ==> self.counter <= self.stop_at,
                shows_grown(&self.morph, &from, &to, self.counter as nat),
                self.counter == self.stop_at || settled(&from, &to, (self.counter - 1) as nat),
                forall|j: nat| j + 1 < self.counter ==> !settled(&from, &to, j),
            decreases size - cells_set(&self.morph),
        {
            let ghost before = self.morph;
            let ghost c = self.counter as nat;
            let done = self.tick();
            proof {
                lemma_count_bound(bits(self.morph.pixels), size);
                assert forall|x: int, y: int| from.in_bounds(x, y) implies #[trigger] self.morph.spec_get(
                    x,
                    y,
                ) == grown_at(&from, &to, c + 1, x, y) by {
                    assert(self.morph.spec_get(x, y) == (before.spec_get(x, y) || (to.spec_get(x, y)
                        && touches(&before, x, y))));
                    lemma_touches_grown(&before, &from, &to, c, x, y);
                }
                if cells_set(&self.morph) == cells_set(&before) {
                    assert forall|x: int, y: int| from.in_bounds(x, y) implies #[trigger] grown_at(
                        &from,
                        &to,
                        c + 1,
                        x,
                        y,
                    ) == grown_at(&from, &to, c, x, y) by {
                        assert(self.morph.spec_get(x, y) == before.spec_get(x, y));
                    }
                    assert(settled(&from, &to, c));
                } else {
                    if settled(&from, &to, c) {
                        lemma_same_count(&self.morph, &before);
                    }
                }
            }
            if done {
                break ;
            }
        }
    }

    /// The shape half way between the two: what both share, grown into
    /// what either has for half as many ticks as it takes to fill it.
    /// `None` where what both share and what either has differ in their
    /// number of clusters, joined along the four directions.
    pub fn average_shape_between(a: BinaryImage, b: BinaryImage) -> (r: Option<BinaryImage>)
        requires
            labelling_fits(&a),
            labelling_fits(&b),
            a.width == b.width,
            a.height == b.height,
            a.spec_len() + 7 <= usize::MAX,
        ensures
            exists|from: BinaryImage, to: BinaryImage, first: Clusters, second: Clusters|
                {
                    &&& is_common_of(&from, &a, &b)
                    &&& is_either_of(&to, &a, &b)
                    &&& first.is_labelling_of(&from, false)
                    &&& second.is_labelling_of(&to, false)
                    &&& r is Some <==> first.clusters@.len() == second.clusters@.len()
                    &&& r is Some ==> is_half_way(&r->0, &from, &to)
                },
    {
        let mut processor = Self::new();
        let ok = processor.init(a, b);
        let ghost from = processor.from;
        let ghost to = processor.to;
        let ghost (first, second) = choose|first: Clusters, second: Clusters|
            first.is_labelling_of(&from, false) && second.is_labelling_of(&to, false) && ok == (
            first.clusters@.len() == second.clusters@.len());
        proof {
            assert(is_common_of(&from, &a, &b));
            assert(is_either_of(&to, &a, &b));
        }
        if !ok {
            return None;
        }
        processor.run();
        let ghost t = processor.counter as nat;
        assert(settled(&from, &to, (t - 1) as nat));
        let image = processor.result();
        proof {
            let k = (t - 1) as nat;
            let s = processor.counter as nat;
            if t / 2 >= 1 {
                if s != t / 2 {
                    assert(settled(&from, &to, (s - 1) as nat));
                    assert(!((s - 1) as nat + 1 < t));
                }
            } else {
                assert(k == 0);
                if s > 1 {
                    assert(!settled(&from, &to, 0));
                }
                lemma_settled_same(&image, &from, &to, 0);
            }
            assert(shows_grown(&image, &from, &to, (k + 1) / 2));
            assert(settles_at(&from, &to, k));
            assert(is_half_way(&image, &from, &to));
        }
        Some(image)
    }
}

/// `from` holds the pixels that `a` and `b` share.
pub open spec fn is_common_of(from: &BinaryImage, a: &BinaryImage, b: &BinaryImage) -> bool {
    &&& from.width == a.width
    &&& from.height == a.height
    &&& forall|x: int, y: int|
        a.in_bounds(x, y) ==> #[trigger] from.spec_get(x, y) == (a.spec_get(x, y) && b.spec_get(
            x,
            y,
        ))
}

/// `to` holds the pixels that `a` or `b` has.
pub open spec fn is_either_of(to: &BinaryImage, a: &BinaryImage, b: &BinaryImage) -> bool {
    &&& to.width == a.width
    &&& to.height == a.height
    &&& forall|x: int, y: int|
        a.in_bounds(x, y) ==> #[trigger] to.spec_get(x, y) == (a.spec_get(x, y) || b.spec_get(x, y))
}

/// The shape stops growing after `k` ticks and no sooner.
pub open spec fn settles_at(from: &BinaryImage, to: &BinaryImage, k: nat) -> bool {
    settled(from, to, k) && forall|j: nat| j < k ==> !settled(from, to, j)
}

/// `image` shows `from` grown into `to` for half as many ticks, rounded
/// up, as it takes until the shape stops growing.
pub open spec fn is_half_way(image: &BinaryImage, from: &BinaryImage, to: &BinaryImage) -> bool {
    exists|k: nat| #[trigger] settles_at(from, to, k) && shows_grown(image, from, to, (k + 1) / 2)
}

/// A pixel touches the shape after `k` ticks where one of its neighbours
/// in the image has grown by then.
proof fn lemma_touches_grown(
    m: &BinaryImage,
    from: &BinaryImage,
    to: &BinaryImage,
    k: nat,
    x: int,
    y: int,
)
    requires
        shows_grown(m, from, to, k),
    ensures
        touches(m, x, y) == ((from.in_bounds(x - 1, y) && grown_at(from, to, k, x - 1, y)) || (
        from.in_bounds(x + 1, y) && grown_at(from, to, k, x + 1, y)) || (from.in_bounds(x, y - 1)
            && grown_at(from, to, k, x, y - 1)) || (from.in_bounds(x, y + 1) && grown_at(
            from,
            to,
            k,
            x,
            y + 1,
        ))),
{
    assert(m.in_bounds(x - 1, y) ==> m.spec_get(x - 1, y) == grown_at(from, to, k, x - 1, y));
    assert(m.in_bounds(x + 1, y) ==> m.spec_get(x + 1, y) == grown_at(from, to, k, x + 1, y));
    assert(m.in_bounds(x, y - 1) ==> m.spec_get(x, y - 1) == grown_at(from, to, k, x, y - 1));
    assert(m.in_bounds(x, y + 1) ==> m.spec_get(x, y + 1) == grown_at(from, to, k, x, y + 1));
}

/// Two images of one size with the same pixels have as many pixels set.
proof fn lemma_same_count(a: &BinaryImage, b: &BinaryImage)
    requires
        a.wf(),
        b.wf(),
        a.width == b.width,
        a.height == b.height,
        forall|x: int, y: int| a.in_bounds(x, y) ==> #[trigger] a.spec_get(x, y) == b.spec_get(x, y),
    ensures
        cells_set(a) == cells_set(b),
{
    lemma_same_count_upto(a, b, a.width * a.height);
}

proof fn lemma_same_count_upto(a: &BinaryImage, b: &BinaryImage, n: int)
    requires
        a.wf(),
        b.wf(),
        a.width == b.width,
        a.height == b.height,
        0 <= n <= a.width * a.height,
        forall|x: int, y: int| a.in_bounds(x, y) ==> #[trigger] a.spec_get(x, y) == b.spec_get(x, y),
    ensures
        count_set(bits(a.pixels), n) == count_set(bits(b.pixels), n),
    decreases n,
{
    if n > 0 {
        lemma_same_count_upto(a, b, n - 1);
        let w = a.width as int;
        assert(w > 0) by (nonlinear_arith)
            requires
                0 < n <= w * a.height,
                0 <= w,
                0 <= a.height,
        ;
        crate::grid::lemma_index_to_cell(n - 1, w, a.height as int);
        assert(a.spec_get((n - 1) % w, (n - 1) / w) == b.spec_get((n - 1) % w, (n - 1) / w));
    }
}

/// Where the shape has settled after `k` ticks, the next tick shows the
/// same image.
proof fn lemma_settled_same(image: &BinaryImage, from: &BinaryImage, to: &BinaryImage, k: nat)
    requires
        shows_grown(image, from, to, k + 1),
        settled(from, to, k),
    ensures
        shows_grown(image, from, to, k),
{
}

} // verus!
