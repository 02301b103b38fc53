//! Walking along the boundary of a shape in a binary image.

use vstd::prelude::*;

use crate::image::BinaryImage;
use crate::point::PointI32;

verus! {

/// The most unit steps a walk may take before it is given up.
pub const WALK_LIMIT: u32 = 1000000;

/// Walks along the edges between set and unset pixels, from lattice point
/// to lattice point, and hands out the points where the direction changes.
///
/// The lattice point `(x, y)` is the top left corner of the pixel `(x, y)`.
pub struct PathWalker<'a> {
    pub image: &'a BinaryImage,
    pub start: PointI32,
    pub curr: PointI32,
    pub prev: PointI32,
    pub prev_prev: PointI32,
    pub length: u32,
    pub clockwise: bool,
    pub first: bool,
    /// Set when the walk was given up: no edge led on, or the walk took
    /// more than `WALK_LIMIT` steps.
    pub failed: bool,
}

/// The unit vector of a direction: 0 is up, and the directions follow
/// clockwise in steps of an eighth of a turn.
pub open spec fn spec_dir_vec(dir: int) -> (int, int) {
    if dir == 0 {
        (0, -1)
    } else if dir == 1 {
        (1, -1)
    } else if dir == 2 {
        (1, 0)
    } else if dir == 3 {
        (1, 1)
    } else if dir == 4 {
        (0, 1)
    } else if dir == 5 {
        (-1, 1)
    } else if dir == 6 {
        (-1, 0)
    } else {
        (-1, -1)
    }
}

/// The offsets of the two pixels on either side of the edge that leaves a
/// lattice point in the direction `dir` (0, 2, 4 or 6).
pub open spec fn spec_side_vecs(dir: int) -> ((int, int), (int, int)) {
    if dir == 0 {
        ((-1, -1), (0, -1))
    } else if dir == 2 {
        ((0, 0), (0, -1))
    } else if dir == 4 {
        ((-1, 0), (0, 0))
    } else {
        ((-1, 0), (-1, -1))
    }
}

/// The edge that leaves `curr` in the direction `k` separates a set pixel
/// from an unset one and does not lead back to `prev` or `prev_prev`.
pub open spec fn edge_admissible(
    image: &BinaryImage,
    curr: PointI32,
    prev: PointI32,
    prev_prev: PointI32,
    k: int,
) -> bool {
    let v = spec_dir_vec(k);
    let s = spec_side_vecs(k);
    &&& !(curr.x + v.0 == prev.x && curr.y + v.1 == prev.y)
    &&& !(curr.x + v.0 == prev_prev.x && curr.y + v.1 == prev_prev.y)
    &&& image.spec_get_safe(curr.x + s.0.0, curr.y + s.0.1) != image.spec_get_safe(
        curr.x + s.1.0,
        curr.y + s.1.1,
    )
}

/// The `n`-th direction that a walk tries: up, right, down, left when
/// clockwise, and the reverse otherwise.
pub open spec fn spec_try_order(clockwise: bool, n: int) -> int {
    if clockwise {
        2 * n
    } else {
        6 - 2 * n
    }
}

/// The direction that the walk takes from `curr`: the first admissible
/// one in the order of trial, or -1 if there is none.
pub open spec fn spec_go(
    image: &BinaryImage,
    curr: PointI32,
    prev: PointI32,
    prev_prev: PointI32,
    clockwise: bool,
) -> int {
    if edge_admissible(image, curr, prev, prev_prev, spec_try_order(clockwise, 0)) {
        spec_try_order(clockwise, 0)
    } else if edge_admissible(image, curr, prev, prev_prev, spec_try_order(clockwise, 1)) {
        spec_try_order(clockwise, 1)
    } else if edge_admissible(image, curr, prev, prev_prev, spec_try_order(clockwise, 2)) {
        spec_try_order(clockwise, 2)
    } else if edge_admissible(image, curr, prev, prev_prev, spec_try_order(clockwise, 3)) {
        spec_try_order(clockwise, 3)
    } else {
        -1
    }
}

/// The point `j` unit steps from `p` in the direction `dir`.
pub open spec fn spec_stepped(p: PointI32, dir: int, j: int) -> (int, int) {
    (p.x + j * spec_dir_vec(dir).0, p.y + j * spec_dir_vec(dir).1)
}

impl<'a> PathWalker<'a> {
    /// The image is sound and small enough, and the walker stands where
    /// a step cannot leave the range of the coordinates.
    pub open spec fn wf(&self) -> bool {
        &&& self.image.wf()
        &&& self.image.width <= i32::MAX - 2
        &&& self.image.height <= i32::MAX - 2
        &&& i32::MIN + 2 <= self.curr.x <= i32::MAX - 2
        &&& i32::MIN + 2 <= self.curr.y <= i32::MAX - 2
        &&& self.length <= WALK_LIMIT + 1
        &&& !self.failed ==> self.length <= WALK_LIMIT
    }

    /// A walker that stands at `start` and has not moved.
    pub fn new(image: &'a BinaryImage, start: PointI32, clockwise: bool) -> (w: Self)
        ensures
            w.image == image,
            w.start == start,
            w.curr == start,
            w.prev == start,
            w.prev_prev == start,
            w.length == 0,
            w.clockwise == clockwise,
            w.first,
            !w.failed,
    {
        Self {
            image,
            start,
            curr: start,
            prev: start,
            prev_prev: start,
            length: 0,
            clockwise,
            first: true,
            failed: false,
        }
    }

    /// How many of the four pixels above, right of, below and left of
    /// `at` are set.
    pub fn count_neighbours_for(&self, at: PointI32) -> (n: u32)
        requires
            self.image.wf(),
            i32::MIN < at.x < i32::MAX,
            i32::MIN < at.y < i32::MAX,
        ensures
            n == (if self.image.spec_get_safe(at.x as int, at.y - 1) {
                1int
            } else {
                0int
            }) + (if self.image.spec_get_safe(at.x + 1, at.y as int) {
                1int
            } else {
                0int
            }) + (if self.image.spec_get_safe(at.x as int, at.y + 1) {
                1int
            } else {
                0int
            }) + (if self.image.spec_get_safe(at.x - 1, at.y as int) {
                1int
            } else {
                0int
            }),
    {
        let mut n: u32 = 0;
        if self.image.get_pixel_at_safe(Self::ahead_of(at, 0)) {
            n += 1;
        }
        if self.image.get_pixel_at_safe(Self::ahead_of(at, 2)) {
            n += 1;
        }
        if self.image.get_pixel_at_safe(Self::ahead_of(at, 4)) {
            n += 1;
        }
        if self.image.get_pixel_at_safe(Self::ahead_of(at, 6)) {
            n += 1;
        }
        n
    }

    /// The unit vector of a direction.
    pub fn dir_vec(dir: u32) -> (v: PointI32)
        requires
            dir < 8,
        ensures
            (v.x as int, v.y as int) == spec_dir_vec(dir as int),
    {
        if dir == 0 {
            PointI32 { x: 0, y: -1 }
        } else if dir == 1 {
            PointI32 { x: 1, y: -1 }
        } else if dir == 2 {
            PointI32 { x: 1, y: 0 }
        } else if dir == 3 {
            PointI32 { x: 1, y: 1 }
        } else if dir == 4 {
            PointI32 { x: 0, y: 1 }
        } else if dir == 5 {
            PointI32 { x: -1, y: 1 }
        } else if dir == 6 {
            PointI32 { x: -1, y: 0 }
        } else {
            PointI32 { x: -1, y: -1 }
        }
    }

    /// The offsets of the two pixels beside the edge in direction `dir`.
    pub fn side_vecs(dir: u32) -> (s: (PointI32, PointI32))
        requires
            dir == 0 || dir == 2 || dir == 4 || dir == 6,
        ensures
            ((s.0.x as int, s.0.y as int), (s.1.x as int, s.1.y as int)) == spec_side_vecs(
                dir as int,
            ),
    {
        if dir == 0 {
            (PointI32 { x: -1, y: -1 }, PointI32 { x: 0, y: -1 })
        } else if dir == 2 {
            (PointI32 { x: 0, y: 0 }, PointI32 { x: 0, y: -1 })
        } else if dir == 4 {
            (PointI32 { x: -1, y: 0 }, PointI32 { x: 0, y: 0 })
        } else {
            (PointI32 { x: -1, y: 0 }, PointI32 { x: -1, y: -1 })
        }
    }

    /// The point one step from `curr` in the direction `dir`.
    pub fn ahead_of(curr: PointI32, dir: u32) -> (p: PointI32)
        requires
            dir < 8,
            i32::MIN < curr.x < i32::MAX,
            i32::MIN < curr.y < i32::MAX,
        ensures
            p.x == curr.x + spec_dir_vec(dir as int).0,
            p.y == curr.y + spec_dir_vec(dir as int).1,
    {
        let vec = Self::dir_vec(dir);
        PointI32 { x: curr.x + vec.x, y: curr.y + vec.y }
    }

    /// Is the edge that leaves the walker's place in direction `k` one to
    /// follow?
    fn admissible(&self, k: u32) -> (a: bool)
        requires
            self.wf(),
            k == 0 || k == 2 || k == 4 || k == 6,
        ensures
            a == edge_admissible(self.image, self.curr, self.prev, self.prev_prev, k as int),
    {
        let ahead = Self::ahead_of(self.curr, k);
        if !(ahead.x == self.prev.x && ahead.y == self.prev.y) && !(ahead.x == self.prev_prev.x
            && ahead.y == self.prev_prev.y) {
            let (a, b) = Self::side_vecs(k);
            let pa = PointI32 { x: self.curr.x + a.x, y: self.curr.y + a.y };
            let pb = PointI32 { x: self.curr.x + b.x, y: self.curr.y + b.y };
            self.image.get_pixel_at_safe(pa) != self.image.get_pixel_at_safe(pb)
        } else {
            false
        }
    }

    /// The direction to take from the walker's place, or -1.
    fn go(&self) -> (d: i32)
        requires
            self.wf(),
        ensures
            d == spec_go(self.image, self.curr, self.prev, self.prev_prev, self.clockwise),
            d == -1 || d == 0 || d == 2 || d == 4 || d == 6,
    {
        let mut n: u32 = 0;
        while n < 4
            invariant
                n <= 4,
                self.wf(),
                forall|m: int|
                    0 <= m < n ==> !edge_admissible(
                        self.image,
                        self.curr,
                        self.prev,
                        self.prev_prev,
                        #[trigger] spec_try_order(self.clockwise, m),
                    ),
            decreases 4 - n,
        {
            let k: u32 = if self.clockwise {
                2 * n
            } else {
                6 - 2 * n
            };
            assert(k == spec_try_order(self.clockwise, n as int));
            if self.admissible(k) {
                proof {
                    assert(n >= 1 ==> !edge_admissible(
                        self.image,
                        self.curr,
                        self.prev,
                        self.prev_prev,
                        spec_try_order(self.clockwise, 0),
                    ));
                    assert(n >= 2 ==> !edge_admissible(
                        self.image,
                        self.curr,
                        self.prev,
                        self.prev_prev,
                        spec_try_order(self.clockwise, 1),
                    ));
                    assert(n >= 3 ==> !edge_admissible(
                        self.image,
                        self.curr,
                        self.prev,
                        self.prev_prev,
                        spec_try_order(self.clockwise, 2),
                    ));
                }
                return k as i32;
            }
            n += 1;
        }
        proof {
            assert(!edge_admissible(
                self.image,
                self.curr,
                self.prev,
                self.prev_prev,
                spec_try_order(self.clockwise, 0),
            ));
            assert(!edge_admissible(
                self.image,
                self.curr,
                self.prev,
                self.prev_prev,
                spec_try_order(self.clockwise, 1),
            ));
            assert(!edge_admissible(
                self.image,
                self.curr,
                self.prev,
                self.prev_prev,
                spec_try_order(self.clockwise, 2),
            ));
            assert(!edge_admissible(
                self.image,
                self.curr,
                self.prev,
                self.prev_prev,
                spec_try_order(self.clockwise, 3),
            ));
        }
        -1
    }

    /// The next point of the walk.
    ///
    /// The first call hands out the start. A later call returns `None`
    /// when the walker is back at the start after at least one step, or
    /// when the walk was given up before. Else the walker takes the
    /// direction `spec_go` and keeps to it for as long as `spec_go` names
    /// it again, and the point where it stops is handed out. The walk is
    /// given up, and `failed` is set, where no edge leads on or when more
    /// than `WALK_LIMIT` steps were taken.
    pub fn next(&mut self) -> (r: Option<PointI32>)
        requires
            old(self).wf(),
        ensures
            final(self).wf(),
            final(self).image == old(self).image,
            final(self).start == old(self).start,
            final(self).clockwise == old(self).clockwise,
            !final(self).first,
            old(self).first ==> r == Some(old(self).start) && final(self).curr == old(self).curr
                && final(self).prev == old(self).prev && final(self).prev_prev == old(self).prev_prev && final(self).length == old(self).length && final(self).failed == old(self).failed,
            !old(self).first && (old(self).failed || (old(self).curr == old(self).start && old(self).length > 0)) ==> r is None && final(self).curr == old(self).curr && final(self).length == old(self).length && final(self).failed == old(self).failed,
            !old(self).first && !old(self).failed && !(old(self).curr == old(self).start && old(self).length > 0) ==> ({
                let d = spec_go(
                    old(self).image,
                    old(self).curr,
                    old(self).prev,
                    old(self).prev_prev,
                    old(self).clockwise,
                );
                let m = final(self).length - old(self).length;
                &&& r is Some <==> !final(self).failed
                &&& r is Some ==> r == Some(final(self).curr)
                &&& d == -1 ==> final(self).failed && m == 0
                &&& d != -1 ==> {
                    &&& m >= 1
                    &&& (final(self).curr.x as int, final(self).curr.y as int) == spec_stepped(
                        old(self).curr,
                        d,
                        m,
                    )
                    &&& (final(self).prev.x as int, final(self).prev.y as int) == spec_stepped(
                        old(self).curr,
                        d,
                        m - 1,
                    )
                    &&& forall|j: int|
                        1 <= j < m ==> #[trigger] spec_go_after(
                            old(self).image,
                            old(self).curr,
                            old(self).prev,
                            d,
                            j,
                            old(self).clockwise,
                        ) == d
                    &&& final(self).failed ==> final(self).length > WALK_LIMIT || spec_go(
                        final(self).image,
                        final(self).curr,
                        final(self).prev,
                        final(self).prev_prev,
                        final(self).clockwise,
                    ) == -1
                    &&& m >= 2 ==> (final(self).prev_prev.x as int, final(self).prev_prev.y as int)
                        == spec_stepped(old(self).curr, d, m - 2)
                    &&& m == 1 ==> final(self).prev_prev == old(self).prev
                    &&& !final(self).failed ==> final(self).length <= WALK_LIMIT && spec_go(
                        final(self).image,
                        final(self).curr,
                        final(self).prev,
                        final(self).prev_prev,
                        final(self).clockwise,
                    ) != d && spec_go(
                        final(self).image,
                        final(self).curr,
                        final(self).prev,
                        final(self).prev_prev,
                        final(self).clockwise,
                    ) != -1
                }
            }),
    {
        if self.first {
            self.first = false;
            return Some(self.start);
        }
        if self.failed || (self.curr.x == self.start.x && self.curr.y == self.start.y
            && self.length > 0) {
            return None;
        }
        let ghost origin = self.curr;
        let ghost before = self.prev;
        let ghost len0 = self.length as int;
        let first_go = self.go();
        if first_go == -1 {
            self.failed = true;
            return None;
        }
        let dir = first_go;
        let ghost d = dir as int;
        loop
            invariant_except_break
                self.wf(),
                self.image == old(self).image,
                self.start == old(self).start,
                self.clockwise == old(self).clockwise,
                !self.first,
                !self.failed,
                origin == old(self).curr,
                before == old(self).prev,
                len0 == old(self).length,
                d == dir,
                d == 0 || d == 2 || d == 4 || d == 6,
                d == spec_go(
                    old(self).image,
                    old(self).curr,
                    old(self).prev,
                    old(self).prev_prev,
                    old(self).clockwise,
                ),
                self.length >= len0,
                spec_go(self.image, self.curr, self.prev, self.prev_prev, self.clockwise) == d,
                (self.curr.x as int, self.curr.y as int) == spec_stepped(
                    origin,
                    d,
                    self.length - len0,
                ),
                self.length > len0 ==> (self.prev.x as int, self.prev.y as int) == spec_stepped(
                    origin,
                    d,
                    self.length - len0 - 1,
                ),
                self.length == len0 ==> self.prev == before && self.prev_prev == old(self).prev_prev,
                self.length == len0 + 1 ==> self.prev_prev == before,
                self.length > len0 + 1 ==> (self.prev_prev.x as int, self.prev_prev.y as int)
                    == spec_stepped(origin, d, self.length - len0 - 2),
                forall|j: int|
                    1 <= j <= self.length - len0 ==> #[trigger] spec_go_after(
                        old(self).image,
                        origin,
                        before,
                        d,
                        j,
                        old(self).clockwise,
                    ) == d,
            ensures
                self.wf(),
                self.image == old(self).image,
                self.start == old(self).start,
                self.clockwise == old(self).clockwise,
                !self.first,
                self.length - len0 >= 1,
                (self.curr.x as int, self.curr.y as int) == spec_stepped(
                    origin,
                    d,
                    self.length - len0,
                ),
                (self.prev.x as int, self.prev.y as int) == spec_stepped(
                    origin,
                    d,
                    self.length - len0 - 1,
                ),
                forall|j: int|
                    1 <= j < self.length - len0 ==> #[trigger] spec_go_after(
                        old(self).image,
                        origin,
                        before,
                        d,
                        j,
                        old(self).clockwise,
                    ) == d,
                self.failed ==> self.length > WALK_LIMIT || spec_go(
                    self.image,
                    self.curr,
                    self.prev,
                    self.prev_prev,
                    self.clockwise,
                ) == -1,
                self.length - len0 >= 2 ==> (self.prev_prev.x as int, self.prev_prev.y as int)
                    == spec_stepped(origin, d, self.length - len0 - 2),
                self.length - len0 == 1 ==> self.prev_prev == before,
                !self.failed ==> self.length <= WALK_LIMIT && spec_go(
                    self.image,
                    self.curr,
                    self.prev,
                    self.prev_prev,
                    self.clockwise,
                ) != d && spec_go(
                    self.image,
                    self.curr,
                    self.prev,
                    self.prev_prev,
                    self.clockwise,
                ) != -1,
            decreases WALK_LIMIT + 1 - self.length,
        {
            proof {
                lemma_admissible_stays_inside(
                    self.image,
                    self.curr,
                    self.prev,
                    self.prev_prev,
                    self.clockwise,
                );
                assert(spec_stepped(origin, d, self.length - len0 + 1) == (
                    self.curr.x + spec_dir_vec(d).0,
                    self.curr.y + spec_dir_vec(d).1,
                )) by (nonlinear_arith)
                    requires
                        (self.curr.x as int, self.curr.y as int) == spec_stepped(
                            origin,
                            d,
                            self.length - len0,
                        ),
                ;
            }
            self.prev_prev = self.prev;
            self.prev = self.curr;
            self.curr = Self::ahead_of(self.curr, dir as u32);
            if self.length >= WALK_LIMIT {
                // the walk does not close: the shape has to be broken down
                // first so that no part hangs on another by a corner
                self.failed = true;
                self.length = self.length + 1;
                break ;
            }
            self.length = self.length + 1;
            let go = self.go();
            proof {
                let j = self.length - len0;
                assert(spec_go_after(old(self).image, origin, before, d, j, old(self).clockwise)
                    == spec_go(self.image, self.curr, self.prev, self.prev_prev, self.clockwise))
                    by {
                    reveal_spec_go_after(old(self).image, origin, before, d, j, old(self).clockwise);
                }
            }
            if go == -1 {
                self.failed = true;
                break ;
            }
            if go != dir {
                break ;
            }
        }
        if self.failed {
            None
        } else {
            Some(self.curr)
        }
    }
}

/// The direction that the walk takes after `j >= 1` steps from `origin`
/// in the direction `d`, having come to `origin` from `before`.
pub open spec fn spec_go_after(
    image: &BinaryImage,
    origin: PointI32,
    before: PointI32,
    d: int,
    j: int,
    clockwise: bool,
) -> int {
    let c = spec_stepped(origin, d, j);
    let p = spec_stepped(origin, d, j - 1);
    let pp = if j >= 2 {
        spec_stepped(origin, d, j - 2)
    } else {
        (before.x as int, before.y as int)
    };
    spec_go(
        image,
        PointI32 { x: c.0 as i32, y: c.1 as i32 },
        PointI32 { x: p.0 as i32, y: p.1 as i32 },
        PointI32 { x: pp.0 as i32, y: pp.1 as i32 },
        clockwise,
    )
}

/// `spec_go_after` written out.
pub proof fn reveal_spec_go_after(
    image: &BinaryImage,
    origin: PointI32,
    before: PointI32,
    d: int,
    j: int,
    clockwise: bool,
)
    ensures
        spec_go_after(image, origin, before, d, j, clockwise) == ({
            let c = spec_stepped(origin, d, j);
            let p = spec_stepped(origin, d, j - 1);
            let pp = if j >= 2 {
                spec_stepped(origin, d, j - 2)
            } else {
                (before.x as int, before.y as int)
            };
            spec_go(
                image,
                PointI32 { x: c.0 as i32, y: c.1 as i32 },
                PointI32 { x: p.0 as i32, y: p.1 as i32 },
                PointI32 { x: pp.0 as i32, y: pp.1 as i32 },
                clockwise,
            )
        }),
{
}

/// An edge to follow ends inside the frame of the image: a set pixel lies
/// beside it.
pub proof fn lemma_admissible_stays_inside(
    image: &BinaryImage,
    curr: PointI32,
    prev: PointI32,
    prev_prev: PointI32,
    clockwise: bool,
)
    requires
        spec_go(image, curr, prev, prev_prev, clockwise) != -1,
    ensures
        ({
            let d = spec_go(image, curr, prev, prev_prev, clockwise);
            &&& 0 <= curr.x + spec_dir_vec(d).0 <= image.width
            &&& 0 <= curr.y + spec_dir_vec(d).1 <= image.height
            &&& 0 <= curr.x <= image.width
            &&& 0 <= curr.y <= image.height
            &&& (d == 0 || d == 2 || d == 4 || d == 6)
        }),
{
}

/// How many steps the walk keeps to the direction `d` from `origin`, given
/// that it has taken `j - 1` of them and the `j`-th is due, the walk
/// being `len0` steps long at `origin`; or -1 if the walk is given up on
/// the way, for want of an edge or because it grows longer than
/// `WALK_LIMIT`.
pub open spec fn spec_run(
    image: &BinaryImage,
    origin: PointI32,
    before: PointI32,
    d: int,
    clockwise: bool,
    len0: int,
    j: int,
) -> int
    decreases WALK_LIMIT + 1 - (len0 + j),
{
    if len0 + j > WALK_LIMIT || j < 1 {
        -1
    } else {
        let g = spec_go_after(image, origin, before, d, j, clockwise);
        if g == -1 {
            -1
        } else if g != d {
            j
        } else {
            spec_run(image, origin, before, d, clockwise, len0, j + 1)
        }
    }
}

/// The points that the walk hands out from here on, until it is back at
/// `start`; `None` if it is given up.
pub open spec fn spec_walk_from(
    image: &BinaryImage,
    start: PointI32,
    curr: PointI32,
    prev: PointI32,
    prev_prev: PointI32,
    clockwise: bool,
    length: int,
) -> Option<Seq<PointI32>>
    decreases WALK_LIMIT + 1 - length,
{
    if curr == start && length > 0 {
        Some(Seq::empty())
    } else if length < 0 || length > WALK_LIMIT {
        None
    } else {
        let d = spec_go(image, curr, prev, prev_prev, clockwise);
        if d == -1 {
            None
        } else {
            let m = spec_run(image, curr, prev, d, clockwise, length, 1);
            if m < 1 || length + m > WALK_LIMIT {
                None
            } else {
                let c = spec_stepped(curr, d, m);
                let p = spec_stepped(curr, d, m - 1);
                let pp = if m >= 2 {
                    spec_stepped(curr, d, m - 2)
                } else {
                    (prev.x as int, prev.y as int)
                };
                let next = PointI32 { x: c.0 as i32, y: c.1 as i32 };
                match spec_walk_from(
                    image,
                    start,
                    next,
                    PointI32 { x: p.0 as i32, y: p.1 as i32 },
                    PointI32 { x: pp.0 as i32, y: pp.1 as i32 },
                    clockwise,
                    length + m,
                ) {
                    Some(rest) => Some(seq![next] + rest),
                    None => None,
                }
            }
        }
    }
}

/// The walk around a shape from `start`: the start, then the points where
/// the direction changes, the last of them the start again; `None` if the
/// walk is given up.
pub open spec fn spec_walk(image: &BinaryImage, start: PointI32, clockwise: bool) -> Option<
    Seq<PointI32>,
> {
    match spec_walk_from(image, start, start, start, start, clockwise, 0) {
        Some(rest) => Some(seq![start] + rest),
        None => None,
    }
}

/// A run that keeps its direction for the steps before the `m`-th and
/// changes it there is `m` steps long.
pub proof fn lemma_run_stops(
    image: &BinaryImage,
    origin: PointI32,
    before: PointI32,
    d: int,
    clockwise: bool,
    len0: int,
    j: int,
    m: int,
)
    requires
        1 <= j <= m,
        len0 + m <= WALK_LIMIT,
        forall|k: int|
            j <= k < m ==> #[trigger] spec_go_after(image, origin, before, d, k, clockwise) == d,
        spec_go_after(image, origin, before, d, m, clockwise) != d,
        spec_go_after(image, origin, before, d, m, clockwise) != -1,
        d != -1,
    ensures
        spec_run(image, origin, before, d, clockwise, len0, j) == m,
    decreases m - j,
{
    if j < m {
        assert(spec_go_after(image, origin, before, d, j, clockwise) == d);
        lemma_run_stops(image, origin, before, d, clockwise, len0, j + 1, m);
    }
}

/// A run that keeps its direction for the steps before the `m`-th and is
/// given up there, or is too long by then, is given up.
pub proof fn lemma_run_fails(
    image: &BinaryImage,
    origin: PointI32,
    before: PointI32,
    d: int,
    clockwise: bool,
    len0: int,
    j: int,
    m: int,
)
    requires
        1 <= j <= m,
        forall|k: int|
            j <= k < m ==> #[trigger] spec_go_after(image, origin, before, d, k, clockwise) == d,
        len0 + m > WALK_LIMIT || spec_go_after(image, origin, before, d, m, clockwise) == -1,
        d != -1,
    ensures
        spec_run(image, origin, before, d, clockwise, len0, j) == -1,
    decreases m - j,
{
    if j < m && len0 + j <= WALK_LIMIT {
        assert(spec_go_after(image, origin, before, d, j, clockwise) == d);
        lemma_run_fails(image, origin, before, d, clockwise, len0, j + 1, m);
    }
}

/// One call of `next` that hands out a point unfolds the walk by that
/// point.
pub proof fn lemma_walk_step(
    image: &BinaryImage,
    start: PointI32,
    clockwise: bool,
    curr: PointI32,
    prev: PointI32,
    prev_prev: PointI32,
    length: int,
    next_curr: PointI32,
    next_prev: PointI32,
    next_prev_prev: PointI32,
    next_length: int,
)
    requires
        !(curr == start && length > 0),
        0 <= length,
        next_length <= WALK_LIMIT,
        ({
            let d = spec_go(image, curr, prev, prev_prev, clockwise);
            let m = next_length - length;
            &&& d != -1
            &&& m >= 1
            &&& (next_curr.x as int, next_curr.y as int) == spec_stepped(curr, d, m)
            &&& (next_prev.x as int, next_prev.y as int) == spec_stepped(curr, d, m - 1)
            &&& m >= 2 ==> (next_prev_prev.x as int, next_prev_prev.y as int) == spec_stepped(
                curr,
                d,
                m - 2,
            )
            &&& m == 1 ==> next_prev_prev == prev
            &&& forall|j: int|
                1 <= j < m ==> #[trigger] spec_go_after(image, curr, prev, d, j, clockwise) == d
            &&& spec_go(image, next_curr, next_prev, next_prev_prev, clockwise) != d
            &&& spec_go(image, next_curr, next_prev, next_prev_prev, clockwise) != -1
        }),
    ensures
        spec_walk_from(image, start, curr, prev, prev_prev, clockwise, length) == (
        match spec_walk_from(
            image,
            start,
            next_curr,
            next_prev,
            next_prev_prev,
            clockwise,
            next_length,
        ) {
            Some(rest) => Some(seq![next_curr] + rest),
            None => None,
        }),
{
    let d = spec_go(image, curr, prev, prev_prev, clockwise);
    let m = next_length - length;
    reveal_spec_go_after(image, curr, prev, d, m, clockwise);
    lemma_run_stops(image, curr, prev, d, clockwise, length, 1, m);
}

/// One call of `next` that gives the walk up means that the walk from
/// there is given up.
pub proof fn lemma_walk_fail(
    image: &BinaryImage,
    start: PointI32,
    clockwise: bool,
    curr: PointI32,
    prev: PointI32,
    prev_prev: PointI32,
    length: int,
    next_curr: PointI32,
    next_prev: PointI32,
    next_prev_prev: PointI32,
    next_length: int,
)
    requires
        !(curr == start && length > 0),
        0 <= length,
        ({
            let d = spec_go(image, curr, prev, prev_prev, clockwise);
            let m = next_length - length;
            d == -1 || {
                &&& m >= 1
                &&& (next_curr.x as int, next_curr.y as int) == spec_stepped(curr, d, m)
                &&& (next_prev.x as int, next_prev.y as int) == spec_stepped(curr, d, m - 1)
                &&& m >= 2 ==> (next_prev_prev.x as int, next_prev_prev.y as int) == spec_stepped(
                    curr,
                    d,
                    m - 2,
                )
                &&& m == 1 ==> next_prev_prev == prev
                &&& forall|j: int|
                    1 <= j < m ==> #[trigger] spec_go_after(image, curr, prev, d, j, clockwise) == d
                &&& next_length > WALK_LIMIT || spec_go(
                    image,
                    next_curr,
                    next_prev,
                    next_prev_prev,
                    clockwise,
                ) == -1
            }
        }),
    ensures
        spec_walk_from(image, start, curr, prev, prev_prev, clockwise, length) is None,
{
    let d = spec_go(image, curr, prev, prev_prev, clockwise);
    let m = next_length - length;
    if d != -1 && length <= WALK_LIMIT {
        reveal_spec_go_after(image, curr, prev, d, m, clockwise);
        lemma_run_fails(image, curr, prev, d, clockwise, length, 1, m);
    }
}

/// Walks the cells of a square outwards from its middle, in a spiral.
pub struct SpiralWalker {
    pub x: i32,
    pub y: i32,
    pub dir: i32,
    pub gx: i32,
    pub gy: i32,
    pub sq: i32,
    pub cc: i32,
    pub area: usize,
    pub step: usize,
}

impl SpiralWalker {
    /// The walk is under way in a square of at most 2^15 cells a side.
    pub open spec fn wf(&self) -> bool {
        &&& self.area <= 0x4000_0000
        &&& self.step <= self.area
        &&& -0x8000 - self.step <= self.x <= 0x8000 + self.step
        &&& -0x8000 - self.step <= self.y <= 0x8000 + self.step
        &&& 0 <= self.dir < 4
        &&& -1 <= self.gx <= 1
        &&& -1 <= self.gy <= 1
        &&& 0 <= self.cc <= self.step
        &&& 1 <= self.sq <= self.step + 1
    }

    /// The walk after one more cell.
    pub open spec fn spec_advance(&self) -> Self {
        if self.area == 1 {
            SpiralWalker { step: (self.step + 1) as usize, ..*self }
        } else {
            let turn = self.cc + 1 >= self.sq;
            let dir = if !turn {
                self.dir as int
            } else if self.dir + 1 >= 4 {
                0
            } else {
                self.dir + 1
            };
            SpiralWalker {
                x: (self.x + self.gx) as i32,
                y: (self.y + self.gy) as i32,
                cc: (if turn {
                    0
                } else {
                    self.cc + 1
                }) as i32,
                dir: dir as i32,
                sq: (if turn && dir % 2 == 0 {
                    self.sq + 1
                } else {
                    self.sq as int
                }) as i32,
                gx: (if !turn {
                    self.gx as int
                } else if dir == 0 {
                    1
                } else if dir == 2 {
                    -1
                } else {
                    0
                }) as i32,
                gy: (if !turn {
                    self.gy as int
                } else if dir == 1 {
                    1
                } else if dir == 3 {
                    -1
                } else {
                    0
                }) as i32,
                area: self.area,
                step: (self.step + 1) as usize,
            }
        }
    }

    /// A walk over the square of `size` by `size` cells, from the cell
    /// left of and above its middle.
    pub fn new(size: usize) -> (w: Self)
        requires
            size <= 0x8000,
        ensures
            w.wf(),
            w.x == size / 2 - 1,
            w.y == size / 2 - 1,
            w.dir == 0,
            w.gx == 1,
            w.gy == 0,
            w.sq == 1,
            w.cc == 0,
            w.area == size * size,
            w.step == 0,
    {
        assert(size >> 1usize == size / 2) by (bit_vector);
        assert(size * size <= 0x4000_0000) by (nonlinear_arith)
            requires
                size <= 0x8000,
        ;
        Self {
            x: ((size >> 1) as i32 - 1),
            y: ((size >> 1) as i32 - 1),
            dir: 0,
            gx: 1,
            gy: 0,
            sq: 1,
            cc: 0,
            area: size * size,
            step: 0,
        }
    }

    /// The next cell, or `None` once all cells of the square were handed
    /// out. A square of one cell has the one cell `(0, 0)`.
    pub fn next(&mut self) -> (r: Option<(i32, i32)>)
        requires
            old(self).wf(),
        ensures
            final(self).wf(),
            old(self).step >= old(self).area ==> r is None && *final(self) == *old(self),
            old(self).step < old(self).area ==> *final(self) == old(self).spec_advance() && r
                == Some(
                if old(self).area == 1 {
                    (0i32, 0i32)
                } else {
                    (old(self).x, old(self).y)
                },
            ),
    {
        if self.step >= self.area {
            return None;
        }
        if self.area == 1 {
            self.step += 1;
            return Some((0, 0));
        }
        let (xx, yy) = (self.x, self.y);
        self.x += self.gx;
        self.y += self.gy;
        self.cc += 1;
        if self.cc >= self.sq {
            self.cc = 0;
            self.dir += 1;
            if self.dir >= 4 {
                self.dir = 0;
            }
            if self.dir % 2 == 0 {
                self.sq += 1;
            }
            if self.dir == 0 {
                self.gx = 1;
                self.gy = 0;
            } else if self.dir == 1 {
                self.gx = 0;
                self.gy = 1;
            } else if self.dir == 2 {
                self.gx = -1;
                self.gy = 0;
            } else {
                self.gx = 0;
                self.gy = -1;
            }
        }
        self.step += 1;
        Some((xx, yy))
    }
}

} // verus!
