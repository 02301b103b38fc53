//! Simplification of integer paths: staircase removal and penalty limiting.

use vstd::prelude::*;

use crate::path::paths::PathI32;
use crate::point::PointI32;

verus! {

pub struct PathSimplify;

/// What is done to a path before it is handed out.
#[derive(Copy, Clone, Debug)]
pub enum PathSimplifyMode {
    /// The path is handed out as it was walked.
    Off,
    /// The path is simplified to a polygon.
    Polygon,
    /// The path is simplified, smoothed and fitted with curves.
    Spline,
}

#[derive(Copy, Clone)]
pub enum Dir {
    Up,
    Right,
    Down,
    Left,
}

impl Default for PathSimplifyMode {
    fn default() -> (m: Self)
        ensures
            m is Off,
    {
        Self::Off
    }
}

/// Twice the signed area of the triangle `p1 p2 p3`; with the origin at
/// the top left, positive means clockwise.
pub open spec fn spec_signed_area(p1: PointI32, p2: PointI32, p3: PointI32) -> int {
    (p2.x - p1.x) * (p3.y - p1.y) - (p3.x - p1.x) * (p2.y - p1.y)
}

/// The length of the segment between two points, along the axes.
pub open spec fn spec_l1(a: PointI32, b: PointI32) -> int {
    (if a.x >= b.x {
        a.x - b.x
    } else {
        b.x - a.x
    }) + (if a.y >= b.y {
        a.y - b.y
    } else {
        b.y - a.y
    })
}

/// The squared distance between two points.
pub open spec fn spec_sq_dist(a: PointI32, b: PointI32) -> int {
    (a.x - b.x) * (a.x - b.x) + (a.y - b.y) * (a.y - b.y)
}

/// Does the point at `i` stay when staircases are removed? The first and
/// the last point stay. A point with a neighbouring segment of length 1
/// stays only if the triangle with its two neighbours has an area other
/// than zero whose sign is that of the walk. Any other point stays.
pub open spec fn staircase_keeps(path: Seq<PointI32>, clockwise: bool, i: int) -> bool {
    let len = path.len() as int;
    let j = (i + 1) % len;
    let h = if i > 0 {
        i - 1
    } else {
        len - 1
    };
    if i == 0 || i == len - 1 {
        true
    } else if spec_l1(path[i], path[h]) == 1 || spec_l1(path[i], path[j]) == 1 {
        let area = spec_signed_area(path[h], path[i], path[j]);
        area != 0 && (area > 0) == clockwise
    } else {
        true
    }
}

/// The points among the first `n` that stay when staircases are removed.
pub open spec fn staircase_kept(path: Seq<PointI32>, clockwise: bool, n: int) -> Seq<PointI32>
    decreases n,
{
    if n <= 0 {
        Seq::empty()
    } else if staircase_keeps(path, clockwise, n - 1) {
        staircase_kept(path, clockwise, n - 1).push(path[n - 1])
    } else {
        staircase_kept(path, clockwise, n - 1)
    }
}

/// The penalty of `b` against the segment `a c` is the squared distance
/// of `b` from the line through `a` and `c`: four times the squared area
/// of the triangle over the squared length of `a c`. This says whether
/// it exceeds 1; it does not where `a` and `c` coincide.
pub open spec fn penalty_exceeds(a: PointI32, b: PointI32, c: PointI32) -> bool {
    spec_signed_area(a, b, c) * spec_signed_area(a, b, c) > spec_sq_dist(a, c)
}

/// Does a point strictly between `from` and `to` have a penalty above 1
/// against the segment between them?
pub open spec fn past_exceeds(path: Seq<PointI32>, from: int, to: int) -> bool {
    exists|k: int| from < k < to && penalty_exceeds(path[from], #[trigger] path[k], path[to])
}

/// Limiting penalties from the point at `i` on, the point at `last`
/// being the last one kept.
pub open spec fn limit_from(path: Seq<PointI32>, i: int, last: int) -> Seq<PointI32>
    decreases path.len() - i,
{
    let len = path.len() as int;
    if i >= len || i < 0 {
        Seq::empty()
    } else {
        let cut = i != 0 && i != last + 1 && past_exceeds(path, last, i);
        let head = if i == 0 {
            seq![path[i]]
        } else if cut {
            seq![path[i - 1]]
        } else {
            Seq::empty()
        };
        let tail = if i == len - 1 && (i == 0 || i != last + 1) {
            seq![path[i]]
        } else {
            Seq::empty()
        };
        head + tail + limit_from(
            path,
            i + 1,
            if cut {
                i - 1
            } else {
                last
            },
        )
    }
}

/// Every coordinate is at most 2^30 in magnitude, so that areas and
/// squared areas can be computed.
pub open spec fn coordinates_bounded(path: Seq<PointI32>) -> bool {
    forall|i: int|
        0 <= i < path.len() ==> -0x4000_0000 <= (#[trigger] path[i]).x <= 0x4000_0000
            && -0x4000_0000 <= path[i].y <= 0x4000_0000
}

/// Twice the signed area of the triangle `p1 p2 p3`.
pub fn signed_area(p1: PointI32, p2: PointI32, p3: PointI32) -> (a: i128)
    ensures
        a == spec_signed_area(p1, p2, p3),
{
    let ax: i128 = p2.x as i128 - p1.x as i128;
    let ay: i128 = p3.y as i128 - p1.y as i128;
    let bx: i128 = p3.x as i128 - p1.x as i128;
    let by: i128 = p2.y as i128 - p1.y as i128;
    assert(-0x1_0000_0000_0000_0000 <= ax * ay <= 0x1_0000_0000_0000_0000) by (nonlinear_arith)
        requires
            -0x1_0000_0000 <= ax <= 0x1_0000_0000,
            -0x1_0000_0000 <= ay <= 0x1_0000_0000,
    ;
    assert(-0x1_0000_0000_0000_0000 <= bx * by <= 0x1_0000_0000_0000_0000) by (nonlinear_arith)
        requires
            -0x1_0000_0000 <= bx <= 0x1_0000_0000,
            -0x1_0000_0000 <= by <= 0x1_0000_0000,
    ;
    ax * ay - bx * by
}

fn l1_length(a: PointI32, b: PointI32) -> (d: i64)
    ensures
        d == spec_l1(a, b),
{
    let dx: i64 = if a.x >= b.x {
        a.x as i64 - b.x as i64
    } else {
        b.x as i64 - a.x as i64
    };
    let dy: i64 = if a.y >= b.y {
        a.y as i64 - b.y as i64
    } else {
        b.y as i64 - a.y as i64
    };
    dx + dy
}

impl PathSimplify {
    /// A copy of the path without its 1-pixel staircases. The sense of
    /// the walk tells the inside from the outside.
    pub fn remove_staircase(path: &PathI32, clockwise: bool) -> (result: PathI32)
        ensures
            result.path@ == staircase_kept(path.path@, clockwise, path.path@.len() as int),
            forall|k: int|
                0 <= k < result.path@.len() ==> path.path@.contains(#[trigger] result.path@[k]),
    {
        let points = &path.path;
        let len = points.len();
        let mut result = PathI32::new();
        if len == 0 {
            return result;
        }
        let mut i: usize = 0;
        while i < len
            invariant
                i <= len,
                len == points@.len(),
                len > 0,
                points@ == path.path@,
                result.path@ == staircase_kept(points@, clockwise, i as int),
                forall|k: int|
                    0 <= k < result.path@.len() ==> points@.contains(#[trigger] result.path@[k]),
            decreases len - i,
        {
            let j = if i + 1 == len {
                0
            } else {
                i + 1
            };
            let h = if i > 0 {
                i - 1
            } else {
                len - 1
            };
            proof {
                if i + 1 == len {
                    vstd::arithmetic::div_mod::lemma_mod_self_0(len as int);
                } else {
                    vstd::arithmetic::div_mod::lemma_small_mod((i + 1) as nat, len as nat);
                }
            }
            let keep = if i == 0 || i == len - 1 {
                true
            } else if l1_length(points[i], points[h]) == 1 || l1_length(points[i], points[j]) == 1 {
                let area = signed_area(points[h], points[i], points[j]);
                area != 0 && (area > 0) == clockwise
            } else {
                true
            };
            if keep {
                let ghost before = result.path@;
                result.add(points[i]);
                proof {
                    assert forall|k: int| 0 <= k < result.path@.len() implies points@.contains(
                        #[trigger] result.path@[k],
                    ) by {
                        if k < before.len() {
                            assert(result.path@[k] == before[k]);
                        } else {
                            assert(points@[i as int] == result.path@[k]);
                        }
                    }
                }
            }
            i += 1;
        }
        result
    }

    /// Is the penalty of a point strictly between `from` and `to` above 1?
    fn past_delta_exceeds(points: &Vec<PointI32>, from: usize, to: usize) -> (e: bool)
        requires
            from < to < points@.len(),
            coordinates_bounded(points@),
        ensures
            e == past_exceeds(points@, from as int, to as int),
    {
        let a = points[from];
        let c = points[to];
        let dx: i128 = a.x as i128 - c.x as i128;
        let dy: i128 = a.y as i128 - c.y as i128;
        assert(0 <= dx * dx <= 0x4000_0000_0000_0000) by (nonlinear_arith)
            requires
                -0x8000_0000 <= dx <= 0x8000_0000,
        ;
        assert(0 <= dy * dy <= 0x4000_0000_0000_0000) by (nonlinear_arith)
            requires
                -0x8000_0000 <= dy <= 0x8000_0000,
        ;
        let dist: i128 = dx * dx + dy * dy;
        let mut k: usize = from + 1;
        while k < to
            invariant
                from < k <= to,
                to < points@.len(),
                coordinates_bounded(points@),
                a == points@[from as int],
                c == points@[to as int],
                dist == spec_sq_dist(a, c),
                forall|m: int|
                    from < m < k ==> !penalty_exceeds(
                        points@[from as int],
                        #[trigger] points@[m],
                        points@[to as int],
                    ),
            decreases to - k,
        {
            let b = points[k];
            let cross = signed_area(a, b, c);
            proof {
                let ux = b.x - a.x;
                let uy = c.y - a.y;
                let vx = c.x - a.x;
                let vy = b.y - a.y;
                assert(-0x4000_0000_0000_0000 <= ux * uy <= 0x4000_0000_0000_0000)
                    by (nonlinear_arith)
                    requires
                        -0x8000_0000 <= ux <= 0x8000_0000,
                        -0x8000_0000 <= uy <= 0x8000_0000,
                ;
                assert(-0x4000_0000_0000_0000 <= vx * vy <= 0x4000_0000_0000_0000)
                    by (nonlinear_arith)
                    requires
                        -0x8000_0000 <= vx <= 0x8000_0000,
                        -0x8000_0000 <= vy <= 0x8000_0000,
                ;
                assert(0 <= cross * cross <= 0x4000_0000_0000_0000_0000_0000_0000_0000)
                    by (nonlinear_arith)
                    requires
                        -0x8000_0000_0000_0000 <= cross <= 0x8000_0000_0000_0000,
                ;
            }
            if cross * cross > dist {
                return true;
            }
            k += 1;
        }
        false
    }

    /// A copy of the path in which runs of points that stay close to a
    /// straight segment are replaced by the segment.
    ///
    /// The walk goes forward with the last kept point in mind. When a
    /// point between the last kept point and the current one has a penalty
    /// above 1 against the segment between them, the predecessor of the
    /// current point is kept and becomes the last kept point. The first
    /// point is always kept, and so is the last, but for a path of two
    /// points: the point after the first is passed over, and of two
    /// points the first alone is left. A single point is first and last,
    /// and comes twice.
    pub fn limit_penalties(path: &PathI32) -> (result: PathI32)
        requires
            coordinates_bounded(path.path@),
        ensures
            result.path@ == limit_from(path.path@, 0, 0),
            forall|k: int|
                0 <= k < result.path@.len() ==> path.path@.contains(#[trigger] result.path@[k]),
    {
        let points = &path.path;
        let len = points.len();
        let mut result = PathI32::new();
        if len == 0 {
            return result;
        }
        let mut last: usize = 0;
        let mut i: usize = 0;
        while i < len
            invariant
                i <= len,
                len == points@.len(),
                len > 0,
                points@ == path.path@,
                coordinates_bounded(points@),
                last < len,
                i > 0 ==> last < i,
                i == 0 ==> last == 0,
                result.path@ + limit_from(points@, i as int, last as int) == limit_from(
                    points@,
                    0,
                    0,
                ),
                forall|k: int|
                    0 <= k < result.path@.len() ==> points@.contains(#[trigger] result.path@[k]),
            decreases len - i,
        {
            let ghost before = result.path@;
            let ghost old_last = last;
            let skipped = i != 0 && i == last + 1;
            if i == 0 {
                result.add(points[i]);
            } else if skipped {
            } else if Self::past_delta_exceeds(points, last, i) {
                last = i - 1;
                result.add(points[i - 1]);
            }
            if i == len - 1 && !skipped {
                result.add(points[i]);
            }
            proof {
                let cut = i != 0 && i != old_last + 1 && past_exceeds(
                    points@,
                    old_last as int,
                    i as int,
                );
                let head = if i == 0 {
                    seq![points@[i as int]]
                } else if cut {
                    seq![points@[i - 1]]
                } else {
                    Seq::empty()
                };
                let tail = if i == len - 1 && (i == 0 || i != old_last + 1) {
                    seq![points@[i as int]]
                } else {
                    Seq::empty()
                };
                assert(result.path@ =~= before + head + tail);
                assert(limit_from(points@, i as int, old_last as int) == head + tail + limit_from(
                    points@,
                    i + 1,
                    last as int,
                ));
                assert(result.path@ + limit_from(points@, i + 1, last as int) =~= before
                    + limit_from(points@, i as int, old_last as int));
                assert forall|k: int| 0 <= k < result.path@.len() implies points@.contains(
                    #[trigger] result.path@[k],
                ) by {
                    if k < before.len() {
                        assert(result.path@[k] == before[k]);
                    } else {
                        assert(points@[i as int] == points@[i as int]);
                        if i > 0 {
                            assert(points@[i - 1] == points@[i - 1]);
                        }
                    }
                }
            }
            i += 1;
        }
        assert(result.path@ + Seq::<PointI32>::empty() =~= result.path@);
        result
    }
}

} // verus!
