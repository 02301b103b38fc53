//! Bounding rectangles on the integer lattice.

use vstd::prelude::*;

use crate::point::fits_i32;
use crate::point::PointI32;

verus! {

/// Half-open rectangle `[left, right) x [top, bottom)`, origin at the top left.
#[derive(Copy, Clone, PartialEq, Eq, Debug, Structural)]
pub struct BoundingRect {
    pub left: i32,
    pub top: i32,
    pub right: i32,
    pub bottom: i32,
}

/// Any object that has a bounding rect.
pub trait Bound {
    /// The rectangle that `bound` returns.
    spec fn spec_bound(&self) -> BoundingRect;

    fn bound(&self) -> (r: BoundingRect)
        ensures
            r == self.spec_bound(),
    ;
}

/// True when the bounding rects of the two objects touch or overlap.
pub fn overlaps<A: Bound, B: Bound>(a: &A, b: &B) -> (hit: bool)
    ensures
        hit == a.spec_bound().spec_hit(b.spec_bound()),
{
    a.bound().hit(b.bound())
}

/// The smaller of two integers.
pub open spec fn spec_min(a: int, b: int) -> int {
    if a < b {
        a
    } else {
        b
    }
}

/// The larger of two integers.
pub open spec fn spec_max(a: int, b: int) -> int {
    if a > b {
        a
    } else {
        b
    }
}

/// The smaller of two numbers.
pub fn min_i32(a: i32, b: i32) -> (m: i32)
    ensures
        m == spec_min(a as int, b as int),
{
    if a < b {
        a
    } else {
        b
    }
}

/// The larger of two numbers.
pub fn max_i32(a: i32, b: i32) -> (m: i32)
    ensures
        m == spec_max(a as int, b as int),
{
    if a > b {
        a
    } else {
        b
    }
}

/// The tight axis-aligned bounding box of the unit cells at `pts`, as
/// `(left, top, right, bottom)`: for no cell, four zeros; else the least
/// column and row, and one more than the greatest column and row.
pub open spec fn aabb(pts: Seq<(int, int)>) -> (int, int, int, int)
    decreases pts.len(),
{
    if pts.len() == 0 {
        (0, 0, 0, 0)
    } else if pts.len() == 1 {
        (pts[0].0, pts[0].1, pts[0].0 + 1, pts[0].1 + 1)
    } else {
        let r = aabb(pts.drop_last());
        let p = pts.last();
        (spec_min(r.0, p.0), spec_min(r.1, p.1), spec_max(r.2, p.0 + 1), spec_max(r.3, p.1 + 1))
    }
}

/// The bounding box of some cells contains each of them, and is tight:
/// a cell touches each of its four sides.
pub proof fn lemma_aabb_tight(pts: Seq<(int, int)>)
    requires
        pts.len() > 0,
    ensures
        forall|i: int|
            0 <= i < pts.len() ==> aabb(pts).0 <= (#[trigger] pts[i]).0 < aabb(pts).2 && aabb(pts).1 <= pts[i].1 < aabb(pts).3,
        exists|i: int| 0 <= i < pts.len() && (#[trigger] pts[i]).0 == aabb(pts).0,
        exists|i: int| 0 <= i < pts.len() && (#[trigger] pts[i]).1 == aabb(pts).1,
        exists|i: int| 0 <= i < pts.len() && (#[trigger] pts[i]).0 + 1 == aabb(pts).2,
        exists|i: int| 0 <= i < pts.len() && (#[trigger] pts[i]).1 + 1 == aabb(pts).3,
        aabb(pts).0 < aabb(pts).2,
        aabb(pts).1 < aabb(pts).3,
    decreases pts.len(),
{
    if pts.len() == 1 {
        assert(pts[0].0 == aabb(pts).0);
    } else {
        let q = pts.drop_last();
        let last = pts.len() - 1;
        lemma_aabb_tight(q);
        let i0 = choose|i: int| 0 <= i < q.len() && (#[trigger] q[i]).0 == aabb(q).0;
        let i1 = choose|i: int| 0 <= i < q.len() && (#[trigger] q[i]).1 == aabb(q).1;
        let i2 = choose|i: int| 0 <= i < q.len() && (#[trigger] q[i]).0 + 1 == aabb(q).2;
        let i3 = choose|i: int| 0 <= i < q.len() && (#[trigger] q[i]).1 + 1 == aabb(q).3;
        assert(pts[i0] == q[i0] && pts[i1] == q[i1] && pts[i2] == q[i2] && pts[i3] == q[i3]);
        let k0 = if pts[last].0 < aabb(q).0 {
            last
        } else {
            i0
        };
        let k1 = if pts[last].1 < aabb(q).1 {
            last
        } else {
            i1
        };
        let k2 = if pts[last].0 + 1 > aabb(q).2 {
            last
        } else {
            i2
        };
        let k3 = if pts[last].1 + 1 > aabb(q).3 {
            last
        } else {
            i3
        };
        assert(pts[k0].0 == aabb(pts).0);
        assert(pts[k1].1 == aabb(pts).1);
        assert(pts[k2].0 + 1 == aabb(pts).2);
        assert(pts[k3].1 + 1 == aabb(pts).3);
        assert forall|i: int| 0 <= i < pts.len() implies aabb(pts).0 <= (#[trigger] pts[i]).0
            < aabb(pts).2 && aabb(pts).1 <= pts[i].1 < aabb(pts).3 by {
            if i < last {
                assert(pts[i] == q[i]);
            }
        }
    }
}

/// The bounding box after one more cell.
pub proof fn lemma_aabb_push(pts: Seq<(int, int)>, p: (int, int))
    ensures
        aabb(pts.push(p)) == (if pts.len() == 0 {
            (p.0, p.1, p.0 + 1, p.1 + 1)
        } else {
            (
                spec_min(aabb(pts).0, p.0),
                spec_min(aabb(pts).1, p.1),
                spec_max(aabb(pts).2, p.0 + 1),
                spec_max(aabb(pts).3, p.1 + 1),
            )
        }),
{
    assert(pts.push(p).drop_last() =~= pts);
}

/// The bounding box of two groups of cells together is the merge of their
/// bounding boxes.
pub proof fn lemma_aabb_concat(a: Seq<(int, int)>, b: Seq<(int, int)>)
    ensures
        aabb(a + b) == (if b.len() == 0 {
            aabb(a)
        } else if a.len() == 0 {
            aabb(b)
        } else {
            (
                spec_min(aabb(a).0, aabb(b).0),
                spec_min(aabb(a).1, aabb(b).1),
                spec_max(aabb(a).2, aabb(b).2),
                spec_max(aabb(a).3, aabb(b).3),
            )
        }),
    decreases b.len(),
{
    if b.len() == 0 {
        assert(a + b =~= a);
    } else if a.len() == 0 {
        assert(a + b =~= b);
    } else {
        let bq = b.drop_last();
        assert((a + b).drop_last() =~= a + bq);
        assert((a + b).last() == b.last());
        lemma_aabb_concat(a, bq);
        if bq.len() > 0 {
            lemma_aabb_tight(bq);
        }
        lemma_aabb_tight(a);
    }
}

/// The cells `pts`, each moved by `(dx, dy)`.
pub open spec fn shifted(pts: Seq<(int, int)>, dx: int, dy: int) -> Seq<(int, int)> {
    Seq::new(pts.len(), |k: int| (pts[k].0 + dx, pts[k].1 + dy))
}

/// Moving some cells moves their bounding box along.
pub proof fn lemma_aabb_shifted(pts: Seq<(int, int)>, dx: int, dy: int)
    requires
        pts.len() > 0,
    ensures
        aabb(shifted(pts, dx, dy)) == (
            aabb(pts).0 + dx,
            aabb(pts).1 + dy,
            aabb(pts).2 + dx,
            aabb(pts).3 + dy,
        ),
    decreases pts.len(),
{
    if pts.len() > 1 {
        lemma_aabb_shifted(pts.drop_last(), dx, dy);
        assert(shifted(pts, dx, dy).drop_last() =~= shifted(pts.drop_last(), dx, dy));
    }
}

impl Default for BoundingRect {
    /// The empty rectangle: all four components zero.
    fn default() -> (r: Self)
        ensures
            r == BoundingRect::spec_zero(),
    {
        Self { left: 0, top: 0, right: 0, bottom: 0 }
    }
}

impl BoundingRect {
    /// The four components as mathematical integers.
    pub open spec fn as_ints(self) -> (int, int, int, int) {
        (self.left as int, self.top as int, self.right as int, self.bottom as int)
    }

    /// The rectangle is the tight bounding box of the unit cells at `pts`.
    pub open spec fn is_aabb_of(self, pts: Seq<(int, int)>) -> bool {
        self.as_ints() == aabb(pts)
    }

    /// Growing the bounding box of some cells by one more cell gives the
    /// bounding box of them all.
    pub proof fn lemma_add_keeps_aabb(self, pts: Seq<(int, int)>, x: int, y: int)
        requires
            self.is_aabb_of(pts),
        ensures
            self.spec_add_x_y(x, y) == aabb(pts.push((x, y))),
    {
        lemma_aabb_push(pts, (x, y));
        if pts.len() > 0 {
            lemma_aabb_tight(pts);
        }
    }

    /// Merging the bounding boxes of two groups of cells gives the bounding
    /// box of them all.
    pub proof fn lemma_merge_keeps_aabb(self, pts: Seq<(int, int)>, other: Self, more: Seq<(int, int)>)
        requires
            self.is_aabb_of(pts),
            other.is_aabb_of(more),
        ensures
            self.spec_merge(other).is_aabb_of(pts + more),
    {
        lemma_aabb_concat(pts, more);
        if pts.len() > 0 {
            lemma_aabb_tight(pts);
        }
        if more.len() > 0 {
            lemma_aabb_tight(more);
        }
    }

    /// The rectangle whose four components are zero.
    pub open spec fn spec_zero() -> Self {
        BoundingRect { left: 0, top: 0, right: 0, bottom: 0 }
    }

    pub open spec fn spec_width(self) -> int {
        self.right - self.left
    }

    pub open spec fn spec_height(self) -> int {
        self.bottom - self.top
    }

    /// Empty means that width and height are both zero; a rectangle with
    /// one zero dimension is not empty.
    pub open spec fn spec_is_empty(self) -> bool {
        self.spec_width() == 0 && self.spec_height() == 0
    }

    /// `left <= right` and `top <= bottom`.
    pub open spec fn ordered(self) -> bool {
        self.left <= self.right && self.top <= self.bottom
    }

    /// The rectangle after growing it to include the unit cell at `(x, y)`.
    pub open spec fn spec_add_x_y(self, x: int, y: int) -> (int, int, int, int) {
        if self.spec_is_empty() {
            (x, y, x + 1, y + 1)
        } else {
            (
                if x < self.left {
                    x
                } else {
                    self.left as int
                },
                if y < self.top {
                    y
                } else {
                    self.top as int
                },
                if x >= self.left && x + 1 > self.right {
                    x + 1
                } else {
                    self.right as int
                },
                if y >= self.top && y + 1 > self.bottom {
                    y + 1
                } else {
                    self.bottom as int
                },
            )
        }
    }

    /// The rectangle after growing it to include `other`.
    pub open spec fn spec_merge(self, other: Self) -> Self {
        if other.spec_is_empty() {
            self
        } else if self.spec_is_empty() {
            other
        } else {
            BoundingRect {
                left: spec_min(self.left as int, other.left as int) as i32,
                top: spec_min(self.top as int, other.top as int) as i32,
                right: spec_max(self.right as int, other.right as int) as i32,
                bottom: spec_max(self.bottom as int, other.bottom as int) as i32,
            }
        }
    }

    /// The two rectangles touch or overlap (closed on every side).
    pub open spec fn spec_hit(self, other: Self) -> bool {
        !(other.left > self.right || other.right < self.left || other.top > self.bottom
            || other.bottom < self.top)
    }

    /// The intersection with `other`, component by component.
    pub open spec fn spec_clip(self, other: Self) -> Self {
        BoundingRect {
            left: spec_max(self.left as int, other.left as int) as i32,
            top: spec_max(self.top as int, other.top as int) as i32,
            right: spec_min(self.right as int, other.right as int) as i32,
            bottom: spec_min(self.bottom as int, other.bottom as int) as i32,
        }
    }

    /// `p` lies on one of the four edges, each edge extended by `t` at both ends.
    pub open spec fn spec_on_boundary(self, p: PointI32, t: int) -> bool {
        ((p.x == self.left || p.x == self.right) && self.top - t <= p.y && p.y <= self.bottom + t)
            || ((p.y == self.top || p.y == self.bottom) && self.left - t <= p.x && p.x
            <= self.right + t)
    }

    /// `p` lies strictly inside.
    pub open spec fn spec_inside(self, p: PointI32) -> bool {
        self.left < p.x && p.x < self.right && self.top < p.y && p.y < self.bottom
    }

    /// The number of lattice points on the boundary of a rectangle that is at
    /// least one unit wide and high.
    pub open spec fn spec_perimeter(self) -> int {
        2 * (self.spec_width() + self.spec_height())
    }

    /// The boundary lattice point at clockwise distance `t` from the top left
    /// corner, for `0 <= t < spec_perimeter()`.
    pub open spec fn boundary_point(self, t: int) -> (int, int) {
        let w = self.spec_width();
        let h = self.spec_height();
        if t < w {
            (self.left + t, self.top as int)
        } else if t < w + h {
            (self.right as int, self.top + (t - w))
        } else if t < 2 * w + h {
            (self.right - (t - w - h), self.bottom as int)
        } else {
            (self.left as int, self.bottom - (t - 2 * w - h))
        }
    }

    /// The clockwise distance from the top left corner to the boundary point `p`.
    pub open spec fn boundary_index(self, p: PointI32) -> int {
        let w = self.spec_width();
        let h = self.spec_height();
        if p.y == self.top && p.x < self.right {
            p.x - self.left
        } else if p.x == self.right && p.y < self.bottom {
            w + (p.y - self.top)
        } else if p.y == self.bottom && p.x > self.left {
            w + h + (self.right - p.x)
        } else {
            2 * w + h + (self.bottom - p.y)
        }
    }

    /// The boundary point `k` steps after the one at distance `t0`, clockwise
    /// or counter-clockwise.
    pub open spec fn boundary_walk_point(self, t0: int, k: int, clockwise: bool) -> (int, int) {
        let n = self.spec_perimeter();
        if clockwise {
            self.boundary_point((t0 + k) % n)
        } else {
            self.boundary_point((t0 + (n - k)) % n)
        }
    }

    /// Assumes a top-left origin.
    pub fn new_x_y_w_h(x: i32, y: i32, w: i32, h: i32) -> (r: Self)
        requires
            fits_i32(x + w),
            fits_i32(y + h),
        ensures
            r.left == x,
            r.top == y,
            r.right == x + w,
            r.bottom == y + h,
    {
        Self { left: x, top: y, right: x + w, bottom: y + h }
    }

    pub fn width(self) -> (w: i32)
        requires
            fits_i32(self.spec_width()),
        ensures
            w == self.spec_width(),
    {
        self.right - self.left
    }

    pub fn height(self) -> (h: i32)
        requires
            fits_i32(self.spec_height()),
        ensures
            h == self.spec_height(),
    {
        self.bottom - self.top
    }

    pub fn is_empty(self) -> (e: bool)
        ensures
            e == self.spec_is_empty(),
    {
        self.right == self.left && self.bottom == self.top
    }

    /// The midpoint, each coordinate rounded down.
    pub fn center(self) -> (c: PointI32)
        requires
            fits_i32(self.left + self.right),
            fits_i32(self.top + self.bottom),
        ensures
            c.x == (self.left + self.right) / 2,
            c.y == (self.top + self.bottom) / 2,
    {
        let sx: i32 = self.left + self.right;
        let sy: i32 = self.top + self.bottom;
        assert(sx >> 1u32 == sx / 2) by (bit_vector);
        assert(sy >> 1u32 == sy / 2) by (bit_vector);
        PointI32 { x: sx >> 1, y: sy >> 1 }
    }

    pub fn left_top(&self) -> (p: PointI32)
        ensures
            p.x == self.left,
            p.y == self.top,
    {
        PointI32::new(self.left, self.top)
    }

    pub fn top_left(&self) -> (p: PointI32)
        ensures
            p.x == self.left,
            p.y == self.top,
    {
        PointI32::new(self.left, self.top)
    }

    pub fn top_right(&self) -> (p: PointI32)
        ensures
            p.x == self.right,
            p.y == self.top,
    {
        PointI32::new(self.right, self.top)
    }

    pub fn bottom_left(&self) -> (p: PointI32)
        ensures
            p.x == self.left,
            p.y == self.bottom,
    {
        PointI32::new(self.left, self.bottom)
    }

    pub fn right_bottom(&self) -> (p: PointI32)
        ensures
            p.x == self.right,
            p.y == self.bottom,
    {
        PointI32::new(self.right, self.bottom)
    }

    pub fn bottom_right(&self) -> (p: PointI32)
        ensures
            p.x == self.right,
            p.y == self.bottom,
    {
        PointI32::new(self.right, self.bottom)
    }

    /// The squared distance between the centers of two rectangles.
    pub fn sq_dist(self, other: Self) -> (d: i32)
        requires
            fits_i32(self.left + self.right),
            fits_i32(self.top + self.bottom),
            fits_i32(other.left + other.right),
            fits_i32(other.top + other.bottom),
            ({
                let dx = (self.left + self.right) / 2 - (other.left + other.right) / 2;
                let dy = (self.top + self.bottom) / 2 - (other.top + other.bottom) / 2;
                fits_i32(dx) && fits_i32(dy) && fits_i32(dx * dx) && fits_i32(dy * dy) && fits_i32(
                    dx * dx + dy * dy,
                )
            }),
        ensures
            ({
                let dx = (self.left + self.right) / 2 - (other.left + other.right) / 2;
                let dy = (self.top + self.bottom) / 2 - (other.top + other.bottom) / 2;
                d == dx * dx + dy * dy
            }),
    {
        let diff = self.center() - other.center();
        diff.dot(diff)
    }

    /// Twice the longer side over the shorter side, rounded down.
    pub fn aspect_ratio_doubled(self) -> (a: i32)
        requires
            0 < self.spec_width(),
            0 < self.spec_height(),
            fits_i32(2 * self.spec_width()),
            fits_i32(2 * self.spec_height()),
        ensures
            a == 2 * spec_max(self.spec_width(), self.spec_height()) / spec_min(
                self.spec_width(),
                self.spec_height(),
            ),
    {
        2 * max_i32(self.width(), self.height()) / min_i32(self.width(), self.height())
    }

    /// Grows the rectangle to include the unit cell at `(x, y)`.
    pub fn add_x_y(&mut self, x: i32, y: i32)
        requires
            x < i32::MAX,
            y < i32::MAX,
        ensures
            final(self).left == old(self).spec_add_x_y(x as int, y as int).0,
            final(self).top == old(self).spec_add_x_y(x as int, y as int).1,
            final(self).right == old(self).spec_add_x_y(x as int, y as int).2,
            final(self).bottom == old(self).spec_add_x_y(x as int, y as int).3,
    {
        if self.is_empty() {
            self.left = x;
            self.right = x + 1;
            self.top = y;
            self.bottom = y + 1;
            return ;
        }
        if x < self.left {
            self.left = x;
        } else if x + 1 > self.right {
            self.right = x + 1;
        }
        if y < self.top {
            self.top = y;
        } else if y + 1 > self.bottom {
            self.bottom = y + 1;
        }
    }

    /// Grows the rectangle to include `other`.
    pub fn merge(&mut self, other: Self)
        ensures
            *final(self) == old(self).spec_merge(other),
    {
        if other.is_empty() {
            return ;
        }
        if self.is_empty() {
            self.left = other.left;
            self.right = other.right;
            self.top = other.top;
            self.bottom = other.bottom;
            return ;
        }
        self.left = min_i32(self.left, other.left);
        self.right = max_i32(self.right, other.right);
        self.top = min_i32(self.top, other.top);
        self.bottom = max_i32(self.bottom, other.bottom);
    }

    pub fn clear(&mut self)
        ensures
            *final(self) == BoundingRect::spec_zero(),
    {
        self.left = 0;
        self.right = 0;
        self.top = 0;
        self.bottom = 0;
    }

    pub fn hit(self, other: Self) -> (h: bool)
        ensures
            h == self.spec_hit(other),
    {
        let r1 = self;
        let r2 = other;
        !(r2.left > r1.right || r2.right < r1.left || r2.top > r1.bottom || r2.bottom < r1.top)
    }

    /// Shrinks the rectangle to its intersection with `other`.
    pub fn clip(&mut self, other: Self)
        ensures
            *final(self) == old(self).spec_clip(other),
    {
        if self.left < other.left {
            self.left = other.left;
        }
        if self.top < other.top {
            self.top = other.top;
        }
        if self.right > other.right {
            self.right = other.right;
        }
        if self.bottom > other.bottom {
            self.bottom = other.bottom;
        }
    }

    /// The smallest square that encloses the rectangle, the rectangle
    /// centered in it: its side is the longer side, and the shorter
    /// dimension is padded by half the difference, rounded down, before it.
    pub fn squared(self) -> (s: Self)
        requires
            self.ordered(),
            fits_i32(self.spec_width()),
            fits_i32(self.spec_height()),
            ({
                let size = spec_max(self.spec_width(), self.spec_height());
                &&& fits_i32(self.left - (size - self.spec_width()) / 2)
                &&& fits_i32(self.top - (size - self.spec_height()) / 2)
                &&& fits_i32(self.left - (size - self.spec_width()) / 2 + size)
                &&& fits_i32(self.top - (size - self.spec_height()) / 2 + size)
            }),
        ensures
            ({
                let size = spec_max(self.spec_width(), self.spec_height());
                &&& s.left == self.left - (size - self.spec_width()) / 2
                &&& s.top == self.top - (size - self.spec_height()) / 2
                &&& s.spec_width() == size
                &&& s.spec_height() == size
            }),
    {
        let size = max_i32(self.width(), self.height());
        let dw: i32 = size - self.width();
        let dh: i32 = size - self.height();
        assert(dw >> 1u32 == dw / 2) by (bit_vector);
        assert(dh >> 1u32 == dh / 2) by (bit_vector);
        Self::new_x_y_w_h(self.left - (dw >> 1), self.top - (dh >> 1), size, size)
    }

    /// Moves the rectangle by `p`.
    pub fn translate(&mut self, p: PointI32)
        requires
            fits_i32(old(self).left + p.x),
            fits_i32(old(self).right + p.x),
            fits_i32(old(self).top + p.y),
            fits_i32(old(self).bottom + p.y),
        ensures
            final(self).left == old(self).left + p.x,
            final(self).right == old(self).right + p.x,
            final(self).top == old(self).top + p.y,
            final(self).bottom == old(self).bottom + p.y,
    {
        self.left += p.x;
        self.top += p.y;
        self.right += p.x;
        self.bottom += p.y;
    }

    /// Each edge is extended on both sides by `tolerance` units along its
    /// direction; true exactly when `p` lies on one of the extended edges.
    pub fn have_point_on_boundary(&self, p: PointI32, tolerance: usize) -> (on: bool)
        requires
            tolerance <= i32::MAX,
            fits_i32(self.top - tolerance),
            fits_i32(self.left - tolerance),
            fits_i32(self.bottom + tolerance),
            fits_i32(self.right + tolerance),
        ensures
            on == self.spec_on_boundary(p, tolerance as int),
    {
        let t = tolerance as i32;
        (p.x == self.left || p.x == self.right) && (self.top - t <= p.y && p.y <= self.bottom + t)
            || (p.y == self.top || p.y == self.bottom) && (self.left - t <= p.x && p.x
            <= self.right + t)
    }

    pub fn have_point_inside(&self, p: PointI32) -> (inside: bool)
        ensures
            inside == self.spec_inside(p),
    {
        (self.left < p.x && p.x < self.right) && (self.top < p.y && p.y < self.bottom)
    }

    pub fn have_point_on_boundary_or_inside(&self, p: PointI32, boundary_tolerance: usize) -> (r:
        bool)
        requires
            boundary_tolerance <= i32::MAX,
            fits_i32(self.top - boundary_tolerance),
            fits_i32(self.left - boundary_tolerance),
            fits_i32(self.bottom + boundary_tolerance),
            fits_i32(self.right + boundary_tolerance),
        ensures
            r == (self.spec_on_boundary(p, boundary_tolerance as int) || self.spec_inside(p)),
    {
        self.have_point_on_boundary(p, boundary_tolerance) || self.have_point_inside(p)
    }

    /// Given a point on the boundary, the closest point inside: one step
    /// away from each edge that `p` lies on, the left and top edges first.
    pub fn get_closest_point_inside(&self, p: PointI32) -> (q: PointI32)
        requires
            self.spec_on_boundary(p, 0),
            self.spec_width() * self.spec_height() > 1,
            i32::MIN < p.x < i32::MAX,
            i32::MIN < p.y < i32::MAX,
        ensures
            q.x == p.x + (if p.x == self.left {
                1int
            } else if p.x == self.right {
                -1int
            } else {
                0int
            }),
            q.y == p.y + (if p.y == self.top {
                1int
            } else if p.y == self.bottom {
                -1int
            } else {
                0int
            }),
    {
        let dx: i32 = if p.x == self.left {
            1
        } else if p.x == self.right {
            -1
        } else {
            0
        };
        let dy: i32 = if p.y == self.top {
            1
        } else if p.y == self.bottom {
            -1
        } else {
            0
        };
        PointI32 { x: p.x + dx, y: p.y + dy }
    }

    /// Given a point on the boundary, the closest point outside; at a
    /// corner, the diagonal one.
    pub fn get_closest_point_outside(&self, p: PointI32) -> (q: PointI32)
        requires
            self.spec_on_boundary(p, 0),
            i32::MIN < p.x < i32::MAX,
            i32::MIN < p.y < i32::MAX,
        ensures
            q.x == p.x + (if p.x == self.left {
                -1int
            } else if p.x == self.right {
                1int
            } else {
                0int
            }),
            q.y == p.y + (if p.y == self.top {
                -1int
            } else if p.y == self.bottom {
                1int
            } else {
                0int
            }),
    {
        let dx: i32 = if p.x == self.left {
            -1
        } else if p.x == self.right {
            1
        } else {
            0
        };
        let dy: i32 = if p.y == self.top {
            -1
        } else if p.y == self.bottom {
            1
        } else {
            0
        };
        PointI32 { x: p.x + dx, y: p.y + dy }
    }

    /// A boundary point sits at its own clockwise distance, which is less
    /// than the perimeter.
    pub proof fn lemma_boundary_index(self, p: PointI32)
        requires
            self.spec_width() >= 1,
            self.spec_height() >= 1,
            self.spec_on_boundary(p, 0),
        ensures
            0 <= self.boundary_index(p) < self.spec_perimeter(),
            self.boundary_point(self.boundary_index(p)) == (p.x as int, p.y as int),
    {
    }

    /// The boundary point that follows `p` in the chosen direction.
    fn boundary_step(&self, p: PointI32, clockwise: bool) -> (q: PointI32)
        requires
            self.spec_width() >= 1,
            self.spec_height() >= 1,
            self.spec_on_boundary(p, 0),
        ensures
            self.spec_on_boundary(q, 0),
            self.boundary_index(q) == (if clockwise {
                (self.boundary_index(p) + 1) % self.spec_perimeter()
            } else {
                (self.boundary_index(p) + self.spec_perimeter() - 1) % self.spec_perimeter()
            }),
    {
        proof {
            let n = self.spec_perimeter();
            let t = self.boundary_index(p);
            self.lemma_boundary_index(p);
            if t + 1 < n {
                vstd::arithmetic::div_mod::lemma_small_mod((t + 1) as nat, n as nat);
            } else {
                vstd::arithmetic::div_mod::lemma_mod_self_0(n);
            }
            if t >= 1 {
                vstd::arithmetic::div_mod::lemma_small_mod((t - 1) as nat, n as nat);
                vstd::arithmetic::div_mod::lemma_mod_multiples_vanish(1, t - 1, n);
            } else {
                vstd::arithmetic::div_mod::lemma_small_mod((n - 1) as nat, n as nat);
            }
        }
        if clockwise {
            if p.y == self.top && p.x < self.right {
                PointI32 { x: p.x + 1, y: p.y }
            } else if p.x == self.right && p.y < self.bottom {
                PointI32 { x: p.x, y: p.y + 1 }
            } else if p.y == self.bottom && p.x > self.left {
                PointI32 { x: p.x - 1, y: p.y }
            } else {
                PointI32 { x: p.x, y: p.y - 1 }
            }
        } else {
            if p.x == self.left && p.y < self.bottom {
                PointI32 { x: p.x, y: p.y + 1 }
            } else if p.y == self.bottom && p.x < self.right {
                PointI32 { x: p.x + 1, y: p.y }
            } else if p.x == self.right && p.y > self.top {
                PointI32 { x: p.x, y: p.y - 1 }
            } else {
                PointI32 { x: p.x - 1, y: p.y }
            }
        }
    }

    /// The boundary lattice points in order, starting from `p` and walking
    /// clockwise or counter-clockwise once around.
    pub fn get_boundary_points_from(&self, p: PointI32, clockwise: bool) -> (points: Vec<PointI32>)
        requires
            self.spec_width() >= 1,
            self.spec_height() >= 1,
            self.spec_on_boundary(p, 0),
            fits_i32(self.spec_perimeter()),
        ensures
            points.len() == self.spec_perimeter(),
            points[0] == p,
            forall|k: int|
                0 <= k < points.len() ==> (#[trigger] points[k].x as int, points[k].y as int)
                    == self.boundary_walk_point(self.boundary_index(p), k, clockwise),
    {
        let n: i32 = 2 * (self.width() + self.height());
        let ghost t0 = self.boundary_index(p);
        let mut points: Vec<PointI32> = Vec::new();
        points.push(p);
        proof {
            self.lemma_boundary_index(p);
            vstd::arithmetic::div_mod::lemma_small_mod(t0 as nat, n as nat);
            vstd::arithmetic::div_mod::lemma_mod_multiples_vanish(1, t0, n as int);
        }
        let mut k: i32 = 1;
        let mut curr = p;
        while k < n
            invariant
                1 <= k <= n,
                n == self.spec_perimeter(),
                self.spec_width() >= 1,
                self.spec_height() >= 1,
                0 <= t0 < n,
                t0 == self.boundary_index(p),
                points.len() == k,
                points[0] == p,
                self.spec_on_boundary(curr, 0),
                self.boundary_index(curr) == (if clockwise {
                    (t0 + (k - 1)) % (n as int)
                } else {
                    (t0 + (n - (k - 1))) % (n as int)
                }),
                forall|j: int|
                    0 <= j < points.len() ==> (#[trigger] points[j].x as int, points[j].y as int)
                        == self.boundary_walk_point(t0, j, clockwise),
            decreases n - k,
        {
            let next = self.boundary_step(curr, clockwise);
            proof {
                let m = n as int;
                let i = self.boundary_index(curr);
                self.lemma_boundary_index(next);
                if clockwise {
                    assert((i + 1) % m == (t0 + k) % m) by {
                        vstd::arithmetic::div_mod::lemma_add_mod_noop(t0 + (k - 1), 1, m);
                        vstd::arithmetic::div_mod::lemma_add_mod_noop(i, 1, m);
                        vstd::arithmetic::div_mod::lemma_mod_twice(t0 + (k - 1), m);
                    }
                } else {
                    assert((i + m - 1) % m == (t0 + (m - k)) % m) by {
                        vstd::arithmetic::div_mod::lemma_add_mod_noop(t0 + (m - (k - 1)), m - 1, m);
                        vstd::arithmetic::div_mod::lemma_add_mod_noop(i, m - 1, m);
                        vstd::arithmetic::div_mod::lemma_mod_twice(t0 + (m - (k - 1)), m);
                        vstd::arithmetic::div_mod::lemma_mod_multiples_vanish(1, t0 + (m - k), m);
                    }
                }
            }
            points.push(next);
            curr = next;
            k += 1;
        }
        points
    }
}

impl Bound for BoundingRect {
    open spec fn spec_bound(&self) -> BoundingRect {
        *self
    }

    fn bound(&self) -> (r: BoundingRect) {
        *self
    }
}

/// The rectangle `b` grown by `expand_x` on the left and right and by
/// `expand_y` above and below.
pub fn expand(b: BoundingRect, expand_x: i32, expand_y: i32) -> (r: BoundingRect)
    requires
        fits_i32(b.left - expand_x),
        fits_i32(b.top - expand_y),
        fits_i32(b.spec_width()),
        fits_i32(b.spec_height()),
        fits_i32(2 * expand_x),
        fits_i32(2 * expand_y),
        fits_i32(b.spec_width() + 2 * expand_x),
        fits_i32(b.spec_height() + 2 * expand_y),
        fits_i32(b.right + expand_x),
        fits_i32(b.bottom + expand_y),
    ensures
        r.left == b.left - expand_x,
        r.top == b.top - expand_y,
        r.right == b.right + expand_x,
        r.bottom == b.bottom + expand_y,
{
    BoundingRect::new_x_y_w_h(
        b.left - expand_x,
        b.top - expand_y,
        b.width() + 2 * expand_x,
        b.height() + 2 * expand_y,
    )
}

/// Statistics over a collection of objects with `Bound` trait.
#[derive(Debug)]
pub struct BoundStat {
    pub average_area: i32,
    pub average_width: i32,
    pub average_height: i32,
    pub min_width: i32,
    pub min_height: i32,
}

/// The sum of the widths of the first `n` bounds.
pub open spec fn sum_widths<B: Bound>(bs: Seq<B>, n: int) -> int
    decreases n,
{
    if n <= 0 {
        0
    } else {
        sum_widths(bs, n - 1) + bs[n - 1].spec_bound().spec_width()
    }
}

/// The sum of the heights of the first `n` bounds.
pub open spec fn sum_heights<B: Bound>(bs: Seq<B>, n: int) -> int
    decreases n,
{
    if n <= 0 {
        0
    } else {
        sum_heights(bs, n - 1) + bs[n - 1].spec_bound().spec_height()
    }
}

/// The sum of the areas of the first `n` bounds.
pub open spec fn sum_areas<B: Bound>(bs: Seq<B>, n: int) -> int
    decreases n,
{
    if n <= 0 {
        0
    } else {
        sum_areas(bs, n - 1) + bs[n - 1].spec_bound().spec_width() * bs[n
            - 1].spec_bound().spec_height()
    }
}

/// The least width among the first `n` bounds, and the greatest `i32`.
pub open spec fn least_width<B: Bound>(bs: Seq<B>, n: int) -> int
    decreases n,
{
    if n <= 0 {
        i32::MAX as int
    } else {
        spec_min(least_width(bs, n - 1), bs[n - 1].spec_bound().spec_width())
    }
}

/// The least height among the first `n` bounds, and the greatest `i32`.
pub open spec fn least_height<B: Bound>(bs: Seq<B>, n: int) -> int
    decreases n,
{
    if n <= 0 {
        i32::MAX as int
    } else {
        spec_min(least_height(bs, n - 1), bs[n - 1].spec_bound().spec_height())
    }
}

/// The merge of the first `n` bounds.
pub open spec fn spec_enclosing<B: Bound>(bs: Seq<B>, n: int) -> BoundingRect
    decreases n,
{
    if n <= 0 {
        BoundingRect::spec_zero()
    } else {
        spec_enclosing(bs, n - 1).spec_merge(bs[n - 1].spec_bound())
    }
}

/// The quotient of `n` by a positive `d`, rounded towards zero.
pub open spec fn mean_trunc(n: int, d: int) -> int {
    if n >= 0 {
        n / d
    } else {
        -((-n) / d)
    }
}

/// The width and the height of every bound fit an `i32`.
pub open spec fn sizes_fit<B: Bound>(bs: Seq<B>) -> bool {
    forall|i: int|
        0 <= i < bs.len() ==> fits_i32((#[trigger] bs[i]).spec_bound().spec_width()) && fits_i32(
            bs[i].spec_bound().spec_height(),
        )
}

/// The sums and the least sizes of bounds whose sizes fit are limited.
pub proof fn lemma_sums_bounded<B: Bound>(bs: Seq<B>, n: int)
    requires
        sizes_fit(bs),
        0 <= n <= bs.len(),
    ensures
        n * (-0x8000_0000) <= sum_widths(bs, n) <= n * 0x7fff_ffff,
        n * (-0x8000_0000) <= sum_heights(bs, n) <= n * 0x7fff_ffff,
        n * (-0x4000_0000_0000_0000) <= sum_areas(bs, n) <= n * 0x4000_0000_0000_0000,
        fits_i32(least_width(bs, n)),
        fits_i32(least_height(bs, n)),
    decreases n,
{
    if n > 0 {
        lemma_sums_bounded(bs, n - 1);
        let w = bs[n - 1].spec_bound().spec_width();
        let h = bs[n - 1].spec_bound().spec_height();
        assert(-0x4000_0000_0000_0000 <= w * h <= 0x4000_0000_0000_0000) by (nonlinear_arith)
            requires
                -0x8000_0000 <= w <= 0x7fff_ffff,
                -0x8000_0000 <= h <= 0x7fff_ffff,
        ;
    }
}

/// The mean of a sum between `n * lo` and `n * hi` lies between `lo` and
/// `hi`.
pub proof fn lemma_mean_range(sum: int, n: int, lo: int, hi: int)
    requires
        n > 0,
        lo <= 0 <= hi,
        n * lo <= sum <= n * hi,
    ensures
        lo <= mean_trunc(sum, n) <= hi,
{
    if sum >= 0 {
        vstd::arithmetic::div_mod::lemma_div_is_ordered(sum, n * hi, n);
        assert(n * hi == hi * n) by (nonlinear_arith);
        vstd::arithmetic::div_mod::lemma_div_multiples_vanish(hi, n);
        vstd::arithmetic::div_mod::lemma_div_pos_is_pos(sum, n);
    } else {
        assert(n * (-lo) == (-lo) * n) by (nonlinear_arith);
        assert(-sum <= n * (-lo)) by (nonlinear_arith)
            requires
                n * lo <= sum,
        ;
        vstd::arithmetic::div_mod::lemma_div_is_ordered(-sum, n * (-lo), n);
        vstd::arithmetic::div_mod::lemma_div_multiples_vanish(-lo, n);
        vstd::arithmetic::div_mod::lemma_div_pos_is_pos(-sum, n);
    }
}

fn mean(sum: i128, n: i128) -> (m: i128)
    requires
        n > 0,
        i128::MIN < sum,
    ensures
        m == mean_trunc(sum as int, n as int),
{
    if sum >= 0 {
        sum / n
    } else {
        -((-sum) / n)
    }
}

impl BoundStat {
    /// The mean area, width and height of some bounds, each rounded
    /// towards zero, and their least width and height.
    pub fn calculate<B: Bound>(bs: &[B]) -> (stat: Self)
        requires
            0 < bs@.len() <= i32::MAX,
            sizes_fit(bs@),
            fits_i32(mean_trunc(sum_areas(bs@, bs@.len() as int), bs@.len() as int)),
        ensures
            stat.average_area == mean_trunc(sum_areas(bs@, bs@.len() as int), bs@.len() as int),
            stat.average_width == mean_trunc(sum_widths(bs@, bs@.len() as int), bs@.len() as int),
            stat.average_height == mean_trunc(
                sum_heights(bs@, bs@.len() as int),
                bs@.len() as int,
            ),
            stat.min_width == least_width(bs@, bs@.len() as int),
            stat.min_height == least_height(bs@, bs@.len() as int),
    {
        let mut sum_area: i128 = 0;
        let mut sum_width: i128 = 0;
        let mut sum_height: i128 = 0;
        let mut min_width: i32 = i32::MAX;
        let mut min_height: i32 = i32::MAX;
        let len = bs.len();
        let mut i: usize = 0;
        while i < len
            invariant
                i <= len,
                len == bs@.len(),
                len <= i32::MAX,
                sizes_fit(bs@),
                sum_area == sum_areas(bs@, i as int),
                sum_width == sum_widths(bs@, i as int),
                sum_height == sum_heights(bs@, i as int),
                min_width == least_width(bs@, i as int),
                min_height == least_height(bs@, i as int),
            decreases len - i,
        {
            proof {
                lemma_sums_bounded(bs@, i as int);
                lemma_sums_bounded(bs@, i + 1);
                assert(bs@[i as int].spec_bound().spec_width() >= -0x8000_0000);
            }
            let b = bs[i].bound();
            let width = b.width();
            let height = b.height();
            assert(-0x4000_0000_0000_0000 <= width * height <= 0x4000_0000_0000_0000)
                by (nonlinear_arith)
                requires
                    -0x8000_0000 <= width <= 0x7fff_ffff,
                    -0x8000_0000 <= height <= 0x7fff_ffff,
            ;
            sum_area += width as i128 * height as i128;
            sum_width += width as i128;
            sum_height += height as i128;
            min_width = min_i32(min_width, width);
            min_height = min_i32(min_height, height);
            i += 1;
        }
        proof {
            let n = len as int;
            lemma_sums_bounded(bs@, n);
            lemma_mean_range(sum_widths(bs@, n), n, -0x8000_0000, 0x7fff_ffff);
            lemma_mean_range(sum_heights(bs@, n), n, -0x8000_0000, 0x7fff_ffff);
        }
        let n = len as i128;
        Self {
            average_area: mean(sum_area, n) as i32,
            average_width: mean(sum_width, n) as i32,
            average_height: mean(sum_height, n) as i32,
            min_width,
            min_height,
        }
    }
}

/// The mean width of some bounds, rounded towards zero.
pub fn average_width<B: Bound>(bs: &[B]) -> (a: i32)
    requires
        0 < bs@.len() <= i32::MAX,
        sizes_fit(bs@),
    ensures
        a == mean_trunc(sum_widths(bs@, bs@.len() as int), bs@.len() as int),
{
    let mut sum: i128 = 0;
    let len = bs.len();
    let mut i: usize = 0;
    while i < len
        invariant
            i <= len,
            len == bs@.len(),
            len <= i32::MAX,
            sizes_fit(bs@),
            sum == sum_widths(bs@, i as int),
        decreases len - i,
    {
        proof {
            lemma_sums_bounded(bs@, i as int);
            assert(fits_i32(bs@[i as int].spec_bound().spec_width()));
        }
        sum += bs[i].bound().width() as i128;
        i += 1;
    }
    proof {
        let n = len as int;
        lemma_sums_bounded(bs@, n);
        lemma_mean_range(sum_widths(bs@, n), n, -0x8000_0000, 0x7fff_ffff);
    }
    mean(sum, len as i128) as i32
}

/// The mean height of some bounds, rounded towards zero.
pub fn average_height<B: Bound>(bs: &[B]) -> (a: i32)
    requires
        0 < bs@.len() <= i32::MAX,
        sizes_fit(bs@),
    ensures
        a == mean_trunc(sum_heights(bs@, bs@.len() as int), bs@.len() as int),
{
    let mut sum: i128 = 0;
    let len = bs.len();
    let mut i: usize = 0;
    while i < len
        invariant
            i <= len,
            len == bs@.len(),
            len <= i32::MAX,
            sizes_fit(bs@),
            sum == sum_heights(bs@, i as int),
        decreases len - i,
    {
        proof {
            lemma_sums_bounded(bs@, i as int);
            assert(fits_i32(bs@[i as int].spec_bound().spec_height()));
        }
        sum += bs[i].bound().height() as i128;
        i += 1;
    }
    proof {
        let n = len as int;
        lemma_sums_bounded(bs@, n);
        lemma_mean_range(sum_heights(bs@, n), n, -0x8000_0000, 0x7fff_ffff);
    }
    mean(sum, len as i128) as i32
}

/// The rect that encloses all of some bounds: their merge.
pub fn enclosing_bound<B: Bound>(bs: &[B]) -> (r: BoundingRect)
    ensures
        r == spec_enclosing(bs@, bs@.len() as int),
{
    let mut enclosing = BoundingRect::default();
    let len = bs.len();
    let mut i: usize = 0;
    while i < len
        invariant
            i <= len,
            len == bs@.len(),
            enclosing == spec_enclosing(bs@, i as int),
        decreases len - i,
    {
        enclosing.merge(bs[i].bound());
        i += 1;
    }
    enclosing
}

/// The rect of `item`, grown by `expand_x` and `expand_y`, can be computed.
pub open spec fn expandable(b: BoundingRect, expand_x: i32, expand_y: i32) -> bool {
    &&& fits_i32(b.left - expand_x)
    &&& fits_i32(b.top - expand_y)
    &&& fits_i32(b.spec_width())
    &&& fits_i32(b.spec_height())
    &&& fits_i32(2 * expand_x)
    &&& fits_i32(2 * expand_y)
    &&& fits_i32(b.spec_width() + 2 * expand_x)
    &&& fits_i32(b.spec_height() + 2 * expand_y)
    &&& fits_i32(b.right + expand_x)
    &&& fits_i32(b.bottom + expand_y)
}

/// The rect `b` grown by `expand_x` and `expand_y`.
pub open spec fn spec_expand(b: BoundingRect, expand_x: i32, expand_y: i32) -> BoundingRect {
    BoundingRect {
        left: (b.left - expand_x) as i32,
        top: (b.top - expand_y) as i32,
        right: (b.right + expand_x) as i32,
        bottom: (b.bottom + expand_y) as i32,
    }
}

/// The bounds of the items, each grown by `expand_x` to the left and to
/// the right and by `expand_y` up and down.
pub open spec fn grown_bounds<B: Bound>(items: Seq<B>, expand_x: i32, expand_y: i32) -> Seq<
    BoundingRect,
> {
    Seq::new(items.len(), |k: int| spec_expand(items[k].spec_bound(), expand_x, expand_y))
}

/// Groups the items whose bounds, grown by `expand_x` to the left and to
/// the right and by `expand_y` up and down, touch or overlap.
///
/// Every item is put in one group. The groups and the items in each come
/// in the reverse of the order of the items. Two items whose grown
/// bounds touch or overlap are in one group, and any two items of a
/// group are joined by a chain of items whose grown bounds do.
pub fn merge_expand<B: Bound>(items: Vec<B>, expand_x: i32, expand_y: i32) -> (groups: Vec<Vec<B>>)
    requires
        items@.len() < u32::MAX,
        forall|i: int|
            0 <= i < items@.len() ==> expandable(
                (#[trigger] items@[i]).spec_bound(),
                expand_x,
                expand_y,
            ),
    ensures
        exists|pos: Seq<Seq<int>>|
            crate::disjoint_sets::is_grouping(items@, groups@, pos) && (forall|i: int, j: int|
                0 <= i < j < items@.len() && spec_expand(
                    items@[i].spec_bound(),
                    expand_x,
                    expand_y,
                ).spec_hit(spec_expand(items@[j].spec_bound(), expand_x, expand_y))
                    ==> #[trigger] crate::disjoint_sets::in_one_group(pos, i, j)) && (forall|
                i: int,
                j: int,
            | #[trigger]
                crate::disjoint_sets::in_one_group(pos, i, j) ==> crate::disjoint_sets::chained(
                    crate::disjoint_sets::may_hit(grown_bounds(items@, expand_x, expand_y)),
                    i,
                    j,
                )),
{
    let ghost all = items@;
    let n = items.len();
    let mut keys: Vec<BoundingRect> = Vec::new();
    let mut t: usize = 0;
    while t < n
        invariant
            t <= n,
            n == items@.len(),
            keys@.len() == t,
            forall|i: int|
                0 <= i < items@.len() ==> expandable(
                    (#[trigger] items@[i]).spec_bound(),
                    expand_x,
                    expand_y,
                ),
            forall|k: int|
                0 <= k < t ==> #[trigger] keys@[k] == spec_expand(
                    items@[k].spec_bound(),
                    expand_x,
                    expand_y,
                ),
        decreases n - t,
    {
        assert(expandable(items@[t as int].spec_bound(), expand_x, expand_y));
        let key = expand(items[t].bound(), expand_x, expand_y);
        keys.push(key);
        t += 1;
    }
    proof {
        assert(keys@ =~= grown_bounds(all, expand_x, expand_y));
    }
    crate::disjoint_sets::group_by_keys(items, keys)
}

} // verus!
