//! Lines and filled triangles on the pixel grid.

use vstd::prelude::*;

use crate::image::BinaryImage;
use crate::point::PointI32;
use crate::sorting::is_keyed_sort;
use crate::sorting::lemma_keyed_is_stable;
use crate::sorting::sort_keyed;
use crate::sorting::stably_sorted;

verus! {

/// The greatest magnitude of a coordinate that lines are drawn between.
pub const RASTER_LIMIT: i32 = 0x0800_0000;

/// Walks the pixels of a line from one point to another.
pub struct BresenhamIterator {
    pub x: i32,
    pub y: i32,
    pub sx: i32,
    pub sy: i32,
    pub eps: i32,
    pub adx: i32,
    pub ady: i32,
    pub p: PointI32,
    pub horizontal: bool,
}

/// Walks the pixels of a triangle, row by row.
pub struct TriangleRasterizer {
    pub points: Vec<PointI32>,
    pub counter: usize,
    pub span: Option<SpanRasterizer>,
}

/// Walks the pixels of a row from `x` up to but without `x1`.
pub struct SpanRasterizer {
    pub x: i32,
    pub x1: i32,
    pub y: i32,
}

/// Both coordinates of a point are within the limit for drawing.
pub open spec fn drawable(p: PointI32) -> bool {
    -RASTER_LIMIT <= p.x <= RASTER_LIMIT && -RASTER_LIMIT <= p.y <= RASTER_LIMIT
}

/// The key by which the points of a triangle are sorted: the row first,
/// then the column.
pub open spec fn spec_row_key(p: PointI32) -> int {
    p.y * 0x1_0000_0000 + p.x
}

pub fn row_key(p: &PointI32) -> (k: i128)
    ensures
        k == spec_row_key(*p),
{
    p.y as i128 * 0x1_0000_0000 + p.x as i128
}

/// Puts the points in ascending order of row and column, equal points
/// staying in their former order.
fn sort_by_row(points: &mut Vec<PointI32>)
    ensures
        stably_sorted(old(points)@, final(points)@, |p: PointI32| spec_row_key(p)),
{
    let ghost items = points@;
    let mut keyed: Vec<(i128, PointI32)> = Vec::new();
    let n = points.len();
    let mut k: usize = 0;
    while k < n
        invariant
            k <= n,
            n == points@.len(),
            points@ == items,
            keyed@.len() == k,
            forall|t: int|
                0 <= t < k ==> (#[trigger] keyed@[t]).1 == items[t] && keyed@[t].0 == spec_row_key(
                    items[t],
                ),
        decreases n - k,
    {
        keyed.push((row_key(&points[k]), points[k]));
        k += 1;
    }
    let ghost pairs = keyed@;
    let sorted = sort_keyed(keyed);
    proof {
        let src = choose|src: Seq<int>| is_keyed_sort(pairs, sorted@, src);
        lemma_keyed_is_stable(items, pairs, sorted@, |p: PointI32| spec_row_key(p), src);
    }
    *points = sorted;
}

/// Bresenham's line algorithm: the walk of the pixels of the line from
/// `p0` to `p1`.
pub fn bresenham(p0: PointI32, p1: PointI32) -> (it: BresenhamIterator)
    requires
        drawable(p0),
        drawable(p1),
    ensures
        it.wf(),
        it == spec_bresenham(p0, p1),
{
    let dx: i32 = p1.x - p0.x;
    let dy: i32 = p1.y - p0.y;
    let adx: i32 = if dx < 0 {
        -dx
    } else {
        dx
    };
    let ady: i32 = if dy < 0 {
        -dy
    } else {
        dy
    };
    let eps: i32 = 0;
    let sx: i32 = if dx > 0 {
        1
    } else {
        -1
    };
    let sy: i32 = if dy > 0 {
        1
    } else {
        -1
    };
    BresenhamIterator { x: p0.x, y: p0.y, sx, sy, eps, adx, ady, p: p1, horizontal: adx > ady }
}

impl BresenhamIterator {
    /// How many points the walk has yet to hand out.
    pub open spec fn remaining(&self) -> int {
        let r = if self.horizontal {
            if self.sx < 0 {
                self.x - self.p.x + 1
            } else {
                self.p.x - self.x + 1
            }
        } else {
            if self.sy < 0 {
                self.y - self.p.y + 1
            } else {
                self.p.y - self.y + 1
            }
        };
        if r < 0 {
            0
        } else {
            r
        }
    }

    /// The walk is under way: the steps are unit steps, the error term
    /// is small, and the place is near the line.
    pub open spec fn wf(&self) -> bool {
        let m = if self.adx > self.ady {
            self.adx
        } else {
            self.ady
        };
        &&& (self.sx == 1 || self.sx == -1)
        &&& (self.sy == 1 || self.sy == -1)
        &&& self.horizontal == (self.adx > self.ady)
        &&& 0 <= self.adx <= 2 * RASTER_LIMIT
        &&& 0 <= self.ady <= 2 * RASTER_LIMIT
        &&& drawable(self.p)
        &&& -m <= self.eps <= m
        &&& self.remaining() <= m + 1
        &&& -(m + 1 - self.remaining()) - m <= self.x - self.p.x <= (m + 1 - self.remaining()) + m
        &&& -(m + 1 - self.remaining()) - m <= self.y - self.p.y <= (m + 1 - self.remaining()) + m
    }

    /// The walk after one more point.
    pub open spec fn spec_advance(&self) -> Self {
        if self.horizontal {
            let eps = self.eps + self.ady;
            let up = 2 * eps >= self.adx;
            BresenhamIterator {
                x: (self.x + self.sx) as i32,
                y: (if up {
                    self.y + self.sy
                } else {
                    self.y as int
                }) as i32,
                eps: (if up {
                    eps - self.adx
                } else {
                    eps
                }) as i32,
                ..*self
            }
        } else {
            let eps = self.eps + self.adx;
            let up = 2 * eps >= self.ady;
            BresenhamIterator {
                y: (self.y + self.sy) as i32,
                x: (if up {
                    self.x + self.sx
                } else {
                    self.x as int
                }) as i32,
                eps: (if up {
                    eps - self.ady
                } else {
                    eps
                }) as i32,
                ..*self
            }
        }
    }

    /// The points that the walk has yet to hand out.
    pub open spec fn spec_rest(&self) -> Seq<PointI32>
        decreases self.remaining(),
    {
        if self.remaining() <= 0 || !self.wf() {
            Seq::empty()
        } else if self.spec_advance().remaining() < self.remaining() {
            seq![PointI32 { x: self.x, y: self.y }] + self.spec_advance().spec_rest()
        } else {
            seq![PointI32 { x: self.x, y: self.y }]
        }
    }

    /// The next point of the line, or `None` past its end.
    pub fn next(&mut self) -> (r: Option<PointI32>)
        requires
            old(self).wf(),
        ensures
            final(self).wf(),
            old(self).remaining() == 0 ==> r is None && *final(self) == *old(self),
            old(self).remaining() > 0 ==> r == Some(PointI32 { x: old(self).x, y: old(self).y })
                && *final(self) == old(self).spec_advance() && final(self).remaining() == old(self).remaining() - 1,
    {
        if self.horizontal {
            if if self.sx < 0 {
                self.x >= self.p.x
            } else {
                self.x <= self.p.x
            } {
                let pp = PointI32::new(self.x, self.y);
                self.eps += self.ady;
                if 2 * self.eps >= self.adx {
                    self.y += self.sy;
                    self.eps -= self.adx;
                }
                self.x += self.sx;
                return Some(pp);
            }
            None
        } else {
            if if self.sy < 0 {
                self.y >= self.p.y
            } else {
                self.y <= self.p.y
            } {
                let pp = PointI32::new(self.x, self.y);
                self.eps += self.adx;
                if 2 * self.eps >= self.ady {
                    self.x += self.sx;
                    self.eps -= self.ady;
                }
                self.y += self.sy;
                return Some(pp);
            }
            None
        }
    }

    /// Appends the points that are left to `points`.
    fn drain_into(&mut self, points: &mut Vec<PointI32>)
        requires
            old(self).wf(),
        ensures
            final(points)@ == old(points)@ + old(self).spec_rest(),
        decreases old(self).remaining(),
    {
        match self.next() {
            None => {
                assert(old(points)@ + Seq::<PointI32>::empty() =~= old(points)@);
            },
            Some(p) => {
                points.push(p);
                let ghost mid = *self;
                let ghost got = points@;
                self.drain_into(points);
                assert(points@ =~= old(points)@ + (seq![p] + mid.spec_rest()));
                proof {
                    if mid.remaining() == 0 {
                        assert(mid.spec_rest() =~= Seq::<PointI32>::empty());
                    }
                }
            },
        }
    }
}

/// The points on the three sides of a triangle, in the order in which
/// they are gathered: the side from the second to the third corner, that
/// from the first to the third, and that from the first to the second.
pub open spec fn spec_sides(a: PointI32, b: PointI32, c: PointI32) -> Seq<PointI32> {
    spec_line(b, c) + spec_line(a, c) + spec_line(a, b)
}

/// The walk of the line from `p0` to `p1`, before its first point.
pub open spec fn spec_bresenham(p0: PointI32, p1: PointI32) -> BresenhamIterator {
    let adx = if p1.x >= p0.x {
        p1.x - p0.x
    } else {
        p0.x - p1.x
    };
    let ady = if p1.y >= p0.y {
        p1.y - p0.y
    } else {
        p0.y - p1.y
    };
    BresenhamIterator {
        x: p0.x,
        y: p0.y,
        sx: if p1.x > p0.x {
            1i32
        } else {
            -1i32
        },
        sy: if p1.y > p0.y {
            1i32
        } else {
            -1i32
        },
        eps: 0,
        adx: adx as i32,
        ady: ady as i32,
        p: p1,
        horizontal: adx > ady,
    }
}

/// The points of the line from `p0` to `p1`.
pub open spec fn spec_line(p0: PointI32, p1: PointI32) -> Seq<PointI32> {
    spec_bresenham(p0, p1).spec_rest()
}

/// The walk through all points of a triangle: the points on its sides are
/// gathered and sorted by row and column; the walk then fills each row
/// between them.
pub fn walk_triangle(triangle: &[PointI32; 3]) -> (r: TriangleRasterizer)
    requires
        drawable(triangle@[0]),
        drawable(triangle@[1]),
        drawable(triangle@[2]),
    ensures
        r.counter == 0,
        r.span is None,
        stably_sorted(
            spec_sides(triangle@[0], triangle@[1], triangle@[2]),
            r.points@,
            |p: PointI32| spec_row_key(p),
        ),
{
    let mut points: Vec<PointI32> = Vec::new();
    let mut side = bresenham(triangle[1], triangle[2]);
    side.drain_into(&mut points);
    let mut side = bresenham(triangle[0], triangle[2]);
    side.drain_into(&mut points);
    let mut side = bresenham(triangle[0], triangle[1]);
    side.drain_into(&mut points);
    assert(points@ =~= spec_sides(triangle@[0], triangle@[1], triangle@[2]));
    sort_by_row(&mut points);
    TriangleRasterizer { points, counter: 0, span: None }
}

/// `sorted` holds the points of the three sides of a triangle in the
/// order of rows and columns, equal points in the order in which the
/// sides gave them.
pub open spec fn sorted_sides(a: PointI32, b: PointI32, c: PointI32, sorted: Seq<PointI32>) -> bool {
    stably_sorted(spec_sides(a, b, c), sorted, |p: PointI32| spec_row_key(p))
}

/// Is the pixel `(x, y)` handed out when the walk is at the point of
/// index `i`? Where the next point lies in the same row, the pixels from
/// the point up to but without the next are; else the point alone is.
pub open spec fn emitted_at(points: Seq<PointI32>, i: int, x: int, y: int) -> bool {
    0 <= i < points.len() && points[i].y == y && (if i + 1 < points.len() && points[i + 1].y
        == points[i].y {
        points[i].x <= x < points[i + 1].x
    } else {
        x == points[i].x
    })
}

/// Is the pixel `(x, y)` handed out while the walk is at one of the first
/// `n` points?
pub open spec fn drawn_before(points: Seq<PointI32>, n: int, x: int, y: int) -> bool {
    exists|i: int| 0 <= i < n && #[trigger] emitted_at(points, i, x, y)
}

/// What is handed out at the first `n + 1` points is what is handed out
/// at the first `n` and at the point of index `n`.
pub proof fn lemma_drawn_step(points: Seq<PointI32>, n: int, x: int, y: int)
    requires
        0 <= n,
    ensures
        drawn_before(points, n + 1, x, y) == (drawn_before(points, n, x, y) || emitted_at(
            points,
            n,
            x,
            y,
        )),
{
    if drawn_before(points, n + 1, x, y) {
        let i = choose|i: int| 0 <= i < n + 1 && #[trigger] emitted_at(points, i, x, y);
        if i < n {
            assert(drawn_before(points, n, x, y));
        }
    }
    if drawn_before(points, n, x, y) {
        let i = choose|i: int| 0 <= i < n && #[trigger] emitted_at(points, i, x, y);
        assert(0 <= i < n + 1 && emitted_at(points, i, x, y));
    }
}

/// Sets the pixels of a triangle in `image`; what lies outside the image
/// is left out. The points of the three sides are put in the order of
/// rows and columns, and every pixel that the walk along them hands out
/// is set: the rows between the sides are filled.
pub fn rasterize_triangle(triangle: &[PointI32; 3], image: &mut BinaryImage)
    requires
        drawable(triangle@[0]),
        drawable(triangle@[1]),
        drawable(triangle@[2]),
        old(image).wf(),
    ensures
        final(image).wf(),
        final(image).width == old(image).width,
        final(image).height == old(image).height,
        forall|x: int, y: int|
            old(image).in_bounds(x, y) && old(image).spec_get(x, y) ==> #[trigger] final(image).spec_get(x, y),
        exists|sorted: Seq<PointI32>|
            #[trigger] sorted_sides(triangle@[0], triangle@[1], triangle@[2], sorted) && forall|
                x: int,
                y: int,
            |
                old(image).in_bounds(x, y) ==> #[trigger] final(image).spec_get(x, y) == (old(
                    image,
                ).spec_get(x, y) || drawn_before(sorted, sorted.len() as int, x, y)),
{
    let mut walk = walk_triangle(triangle);
    let ghost sorted = walk.points@;
    proof {
        assert(sorted_sides(triangle@[0], triangle@[1], triangle@[2], sorted));
        assert forall|x: int, y: int| !walk.drawn(x, y) by {
            if drawn_before(sorted, 0, x, y) {
                let i = choose|i: int| 0 <= i < 0 && #[trigger] emitted_at(sorted, i, x, y);
            }
        }
    }
    loop
        invariant_except_break
            image.wf(),
            image.width == old(image).width,
            image.height == old(image).height,
            walk.wf(),
            walk.on_course(),
            walk.points@ == sorted,
            forall|x: int, y: int|
                old(image).in_bounds(x, y) ==> #[trigger] image.spec_get(x, y) == (old(
                    image,
                ).spec_get(x, y) || walk.drawn(x, y)),
        ensures
            image.wf(),
            image.width == old(image).width,
            image.height == old(image).height,
            walk.points@ == sorted,
            forall|x: int, y: int|
                old(image).in_bounds(x, y) ==> #[trigger] image.spec_get(x, y) == (old(
                    image,
                ).spec_get(x, y) || drawn_before(sorted, sorted.len() as int, x, y)),
        decreases walk.spec_left(),
    {
        let ghost before = walk;
        let ghost shown = *image;
        match walk.next() {
            None => {
                proof {
                    assert forall|x: int, y: int| old(image).in_bounds(x, y) implies #[trigger] image.spec_get(
                        x,
                        y,
                    ) == (old(image).spec_get(x, y) || drawn_before(
                        sorted,
                        sorted.len() as int,
                        x,
                        y,
                    )) by {
                        assert(walk.drawn(x, y) == before.drawn(x, y));
                    }
                }
                break ;
            },
            Some(p) => {
                image.set_pixel_safe(p.x, p.y, true);
                proof {
                    assert forall|x: int, y: int| old(image).in_bounds(x, y) implies #[trigger] image.spec_get(
                        x,
                        y,
                    ) == (old(image).spec_get(x, y) || walk.drawn(x, y)) by {
                        assert(shown.in_bounds(x, y));
                        assert(walk.drawn(x, y) == (before.drawn(x, y) || (p.x == x && p.y == y)));
                    }
                }
            },
        }
    }
}

impl SpanRasterizer {
    /// The next pixel of the row, or `None` at its end.
    pub fn next(&mut self) -> (r: Option<PointI32>)
        ensures
            old(self).x < old(self).x1 ==> r == Some(PointI32 { x: old(self).x, y: old(self).y })
                && final(self).x == old(self).x + 1 && final(self).x1 == old(self).x1 && final(self).y == old(self).y,
            old(self).x >= old(self).x1 ==> r is None && *final(self) == *old(self),
    {
        if self.x < self.x1 {
            let p = PointI32::new(self.x, self.y);
            self.x += 1;
            Some(p)
        } else {
            None
        }
    }
}

/// A measure of what is left of a walk over `len` points that stands at
/// `counter`, with the row `span` under way.
pub open spec fn walk_left(len: int, counter: int, span: Option<SpanRasterizer>) -> int {
    (len - counter) * 0x2_0000_0000 + (match span {
        Some(s) => if s.x < s.x1 {
            s.x1 - s.x + 1
        } else {
            1
        },
        None => 0x1_ffff_ffff,
    })
}

/// What the next step of the walk over `points` leaves and hands out,
/// from the counter `counter` with the row `span` under way: the new
/// counter, the row then under way, and the pixel.
///
/// A row under way hands out its next pixel; when it is done, the counter
/// moves on. With no row under way, the walk ends after the last point;
/// where the point at the counter and the one after it lie in one row,
/// that row is begun, from the first up to but without the second; any
/// other point is handed out by itself.
pub open spec fn spec_next(points: Seq<PointI32>, counter: int, span: Option<SpanRasterizer>) -> (
    int,
    Option<SpanRasterizer>,
    Option<PointI32>,
)
    decreases walk_left(points.len() as int, counter, span),
{
    match span {
        Some(s) => if s.x < s.x1 {
            (
                counter,
                Some(SpanRasterizer { x: (s.x + 1) as i32, x1: s.x1, y: s.y }),
                Some(PointI32 { x: s.x, y: s.y }),
            )
        } else if 0 <= counter < points.len() {
            spec_next(points, counter + 1, None)
        } else {
            (counter, None, None)
        },
        None => if counter < 0 || counter >= points.len() {
            (counter, None, None)
        } else if counter + 1 < points.len() && points[counter].y == points[counter + 1].y {
            spec_next(
                points,
                counter,
                Some(
                    SpanRasterizer {
                        x: points[counter].x,
                        x1: points[counter + 1].x,
                        y: points[counter].y,
                    },
                ),
            )
        } else {
            (counter + 1, None, Some(points[counter]))
        },
    }
}

impl TriangleRasterizer {
    /// The counter is within the points, and a row under way lies before
    /// the last point.
    pub open spec fn wf(&self) -> bool {
        &&& self.counter <= self.points@.len()
        &&& self.span is Some ==> self.counter + 1 <= self.points@.len()
    }

    /// A row under way is the row from the point at the counter to the
    /// point after it, and has gone no further than its end.
    pub open spec fn on_course(&self) -> bool {
        &&& self.wf()
        &&& match self.span {
            Some(s) => {
                &&& self.counter + 1 < self.points@.len()
                &&& self.points@[self.counter as int].y == s.y
                &&& self.points@[self.counter + 1].y == s.y
                &&& self.points@[self.counter + 1].x == s.x1
                &&& self.points@[self.counter as int].x <= s.x
                &&& (s.x <= s.x1 || s.x == self.points@[self.counter as int].x)
            },
            None => true,
        }
    }

    /// Was the pixel `(x, y)` handed out so far? What the points before
    /// the counter gave was, and the part of a row under way that is
    /// done.
    pub open spec fn drawn(&self, x: int, y: int) -> bool {
        drawn_before(self.points@, self.counter as int, x, y) || (match self.span {
            Some(s) => y == s.y && self.points@[self.counter as int].x <= x < s.x,
            None => false,
        })
    }

    /// A measure of what is left of the walk: it goes down with every
    /// point handed out.
    pub open spec fn spec_left(&self) -> int {
        (self.points@.len() - self.counter) * 0x2_0000_0000 + (match self.span {
            Some(s) => if s.x < s.x1 {
                s.x1 - s.x + 1
            } else {
                1
            },
            None => 0x1_ffff_ffff,
        })
    }

    /// The next pixel of the triangle, or `None` at the end.
    ///
    /// Where the point at the counter and the one after it lie in the
    /// same row, the pixels from the first up to but without the second
    /// are handed out as a row, and the counter moves on when the row is
    /// done; any other point is handed out by itself.
    pub fn next(&mut self) -> (r: Option<PointI32>)
        requires
            old(self).wf(),
        ensures
            final(self).wf(),
            final(self).points@ == old(self).points@,
            r is Some ==> final(self).spec_left() < old(self).spec_left(),
            r is None ==> final(self).counter == final(self).points@.len() && final(self).span
                is None,
            r is Some && old(self).span is Some && old(self).span->0.x < old(self).span->0.x1 ==> r
                == Some(PointI32 { x: old(self).span->0.x, y: old(self).span->0.y }) && final(self).counter == old(self).counter,
            old(self).on_course() ==> final(self).on_course() && forall|x: int, y: int|
                #[trigger] final(self).drawn(x, y) == (old(self).drawn(x, y) || (r is Some && r->0.x
                    == x && r->0.y == y)),
            (final(self).counter as int, final(self).span, r) == spec_next(
                old(self).points@,
                old(self).counter as int,
                old(self).span,
            ),
    {
        let total = self.points.len();
        let mut found: Option<PointI32> = None;
        loop
            invariant_except_break
                self.wf(),
                self.points@ == old(self).points@,
                total == self.points@.len(),
                self.spec_left() <= old(self).spec_left(),
                self.counter >= old(self).counter,
                old(self).span is Some && old(self).span->0.x < old(self).span->0.x1 ==> self.counter
                    == old(self).counter && self.span == old(self).span,
                old(self).on_course() ==> self.on_course() && forall|x: int, y: int|
                    #[trigger] self.drawn(x, y) == old(self).drawn(x, y),
                spec_next(self.points@, self.counter as int, self.span) == spec_next(
                    old(self).points@,
                    old(self).counter as int,
                    old(self).span,
                ),
            ensures
                (self.counter as int, self.span, found) == spec_next(
                    old(self).points@,
                    old(self).counter as int,
                    old(self).span,
                ),
                old(self).on_course() ==> self.on_course() && forall|x: int, y: int|
                    #[trigger] self.drawn(x, y) == (old(self).drawn(x, y) || (found is Some
                        && found->0.x == x && found->0.y == y)),
                self.wf(),
                self.points@ == old(self).points@,
                found is Some ==> self.spec_left() < old(self).spec_left(),
                found is None ==> self.counter == self.points@.len() && self.span is None,
                found is Some && old(self).span is Some && old(self).span->0.x < old(self).span->0.x1 ==> found == Some(
                    PointI32 { x: old(self).span->0.x, y: old(self).span->0.y },
                ) && self.counter == old(self).counter,
            decreases self.spec_left(),
        {
            let mut row_done = false;
            let mut handed: Option<PointI32> = None;
            let ghost at = *self;
            match &mut self.span {
                Some(span) => {
                    match span.next() {
                        Some(p) => {
                            handed = Some(p);
                        },
                        None => {
                            row_done = true;
                        },
                    }
                },
                None => {},
            }
            if handed.is_some() {
                found = handed;
                proof {
                    if old(self).on_course() {
                        assert forall|x: int, y: int| #[trigger] self.drawn(x, y) == (at.drawn(x, y)
                            || (found->0.x == x && found->0.y == y)) by {}
                    }
                }
                break ;
            }
            if row_done {
                self.span = None;
                self.counter += 1;
                proof {
                    assert(spec_next(at.points@, at.counter as int, at.span) == spec_next(
                        self.points@,
                        self.counter as int,
                        self.span,
                    ));
                    if old(self).on_course() {
                        assert forall|x: int, y: int| #[trigger] self.drawn(x, y) == at.drawn(
                            x,
                            y,
                        ) by {
                            lemma_drawn_step(self.points@, at.counter as int, x, y);
                        }
                    }
                }
            }
            let ghost here = *self;
            proof {
                assert(here.span is None);
                assert(spec_next(here.points@, here.counter as int, here.span) == spec_next(
                    old(self).points@,
                    old(self).counter as int,
                    old(self).span,
                ));
            }
            if self.counter >= total {
                found = None;
                proof {
                    assert(spec_next(here.points@, here.counter as int, None) == (
                        here.counter as int,
                        None::<SpanRasterizer>,
                        None::<PointI32>,
                    ));
                }
                break ;
            }
            let point = self.points[self.counter];
            let mut same_row = false;
            if self.counter + 1 < total {
                let next = self.points[self.counter + 1];
                if point.y == next.y {
                    self.span = Some(SpanRasterizer { x: point.x, x1: next.x, y: point.y });
                    same_row = true;
                }
            }
            if !same_row {
                self.counter += 1;
                found = Some(PointI32::new(point.x, point.y));
                proof {
                    assert(spec_next(here.points@, here.counter as int, None) == (
                        here.counter + 1,
                        None::<SpanRasterizer>,
                        Some(here.points@[here.counter as int]),
                    ));
                    if old(self).on_course() {
                        assert forall|x: int, y: int| #[trigger] self.drawn(x, y) == (here.drawn(x, y)
                            || (found->0.x == x && found->0.y == y)) by {
                            lemma_drawn_step(self.points@, here.counter as int, x, y);
                        }
                    }
                }
                break ;
            }
            proof {
                assert(spec_next(here.points@, here.counter as int, None) == spec_next(
                    self.points@,
                    self.counter as int,
                    self.span,
                ));
                if old(self).on_course() {
                    assert(here.span is None);
                    assert(self.on_course());
                    assert forall|x: int, y: int| #[trigger] self.drawn(x, y) == here.drawn(x, y) by {}
                }
            }
        }
        found
    }
}

} // verus!
