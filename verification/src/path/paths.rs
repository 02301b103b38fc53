//! Paths of points.

use vstd::prelude::*;
use vstd::std_specs::slice::into_iter_elts;

use crate::path::simplify::coordinates_bounded;
use crate::path::simplify::limit_from;
use crate::path::simplify::staircase_kept;
use crate::image::BinaryImage;
use crate::path::simplify::PathSimplify;
use crate::path::simplify::PathSimplifyMode;
use crate::path::walker::lemma_admissible_stays_inside;
use crate::path::walker::lemma_walk_fail;
use crate::path::walker::lemma_walk_step;
use crate::path::walker::spec_walk;
use crate::path::walker::spec_walk_from;
use crate::path::walker::PathWalker;
use crate::path::walker::WALK_LIMIT;
use crate::shape::geometry::boundary_cells;
use crate::shape::geometry::is_boundary;
use crate::shape::geometry::Shape;
use crate::point::fits_i32;
use crate::point::PointI32;
use crate::point::ToSvgString;
use crate::text::push_str;

verus! {

/// Path of generic points in 2D space. A closed path repeats its first
/// point as its last.
#[derive(Clone, Debug)]
pub struct Path<T> {
    pub path: Vec<T>,
}

/// Path of 2D `PointI32`.
pub type PathI32 = Path<PointI32>;

impl<T> Default for Path<T> {
    fn default() -> (p: Self)
        ensures
            p.path@.len() == 0,
    {
        Self { path: Vec::new() }
    }
}

impl<T> Path<T> {
    /// Creates a path with no points.
    pub fn new() -> (p: Self)
        ensures
            p.path@.len() == 0,
    {
        Self { path: Vec::new() }
    }

    /// Creates a path with `points` as its points.
    pub fn from_points(points: Vec<T>) -> (p: Self)
        ensures
            p.path@ == points@,
    {
        Self { path: points }
    }

    /// Adds a point to the end of the path.
    pub fn add(&mut self, point: T)
        ensures
            final(self).path@ == old(self).path@.push(point),
    {
        self.path.push(point);
    }

    /// Removes the last point from the path and returns it, or `None` if
    /// the path is empty.
    pub fn pop(&mut self) -> (p: Option<T>)
        ensures
            old(self).path@.len() == 0 ==> p is None && final(self).path@ == old(self).path@,
            old(self).path@.len() > 0 ==> p == Some(old(self).path@.last()) && final(self).path@
                == old(self).path@.drop_last(),
    {
        self.path.pop()
    }

    /// Returns an iterator on the points of the path.
    pub fn iter(&self) -> (it: core::slice::Iter<'_, T>)
        ensures
            into_iter_elts(it) == self.path@,
    {
        broadcast use vstd::std_specs::slice::axiom_spec_slice_iter;

        let it = self.path.iter();
        proof {
            assert(self.path@.as_ref().unref() =~= self.path@);
        }
        it
    }

    /// Returns the number of points in the path.
    pub fn len(&self) -> (n: usize)
        ensures
            n == self.path@.len(),
    {
        self.path.len()
    }

    /// Returns true if the path is empty.
    pub fn is_empty(&self) -> (e: bool)
        ensures
            e == (self.path@.len() == 0),
    {
        self.len() == 0
    }
}

/// The points of a path without the repeated last point, if it is closed.
pub open spec fn spec_open(path: Seq<PointI32>) -> Seq<PointI32> {
    if path.len() == 0 || path[0] != path[path.len() - 1] {
        path
    } else {
        path.drop_last()
    }
}

/// The points of a path with its first point repeated as the last, unless
/// it is closed already.
pub open spec fn spec_closed(path: Seq<PointI32>) -> Seq<PointI32> {
    if path.len() == 0 || path[0] == path[path.len() - 1] {
        path
    } else {
        path.push(path[0])
    }
}

/// A path is closed when it is not empty and its last point is its first.
pub open spec fn is_closed(path: Seq<PointI32>) -> bool {
    path.len() > 0 && path[0] == path[path.len() - 1]
}

/// Opening a closed path and closing it again gives the path back,
/// unless the path is a single point or its last point but one is the
/// first point too: what is left after opening such a path counts as
/// closed already.
pub proof fn lemma_close_open(path: Seq<PointI32>)
    requires
        is_closed(path),
        path.len() != 1,
        path.len() >= 2 ==> path[path.len() - 2] != path[0],
    ensures
        spec_closed(spec_open(path)) == path,
{
    let opened = spec_open(path);
    assert(opened == path.drop_last());
    assert(opened.push(path[0]) =~= path);
}

/// Closing a path that is not closed and opening it again gives the
/// path back.
pub proof fn lemma_open_close(path: Seq<PointI32>)
    requires
        !is_closed(path),
    ensures
        spec_open(spec_closed(path)) == path,
{
    if path.len() > 0 {
        let closed = path.push(path[0]);
        assert(closed.drop_last() =~= path);
    }
}

/// Closing a closed path and opening an open path change nothing.
pub proof fn lemma_close_open_fixed(path: Seq<PointI32>)
    ensures
        is_closed(path) ==> spec_closed(path) == path,
        !is_closed(path) ==> spec_open(path) == path,
        spec_closed(spec_closed(path)) == spec_closed(path),
{
    if path.len() > 0 && !is_closed(path) {
        let closed = path.push(path[0]);
        assert(closed[0] == closed[closed.len() - 1]);
    }
}

/// The outline of the shape in an image: the walk from its first boundary
/// pixel in raster order; no point for an image without set pixels, and
/// `None` if the walk is given up.
pub open spec fn spec_outline(image: &BinaryImage, clockwise: bool) -> Option<Seq<PointI32>> {
    let cells = boundary_cells(image, image.width * image.height);
    if cells.len() == 0 {
        Some(Seq::empty())
    } else {
        spec_walk(
            image,
            PointI32 { x: cells[0].0 as i32, y: cells[0].1 as i32 },
            clockwise,
        )
    }
}

/// The path around the shape in an image: its outline, simplified if the
/// mode is `Polygon`; `None` if the walk is given up.
pub open spec fn spec_image_path(image: &BinaryImage, clockwise: bool, mode: PathSimplifyMode) -> Option<
    Seq<PointI32>,
> {
    match spec_outline(image, clockwise) {
        None => None,
        Some(outline) => Some(
            match mode {
                PathSimplifyMode::Polygon => limit_from(
                    staircase_kept(outline, clockwise, outline.len() as int),
                    0,
                    0,
                ),
                _ => outline,
            },
        ),
    }
}

/// The number of points drawn with a line to them.
pub open spec fn spec_line_count(len: int, close: bool) -> int {
    let take = if close {
        len - 2
    } else {
        len - 1
    };
    if take < len - 1 {
        take
    } else {
        len - 1
    }
}

/// The text `L x,y ` for each of the points from position `from` up to
/// position `to`, moved by `offset`.
pub open spec fn spec_lines(
    path: Seq<PointI32>,
    offset: PointI32,
    precision: Option<u32>,
    from: int,
    to: int,
) -> Seq<char>
    decreases to - from,
{
    if to <= from {
        Seq::empty()
    } else {
        spec_lines(path, offset, precision, from, to - 1) + seq!['L'] + (PointI32 {
            x: (path[to - 1].x + offset.x) as i32,
            y: (path[to - 1].y + offset.y) as i32,
        }).spec_svg_string(precision) + seq![' ']
    }
}

/// The SVG text of a path: `M x,y ` for the first point, `L x,y ` for
/// each later point (but the last of a path to be closed), and `Z ` if
/// the path is to be closed.
pub open spec fn spec_path_svg(
    path: Seq<PointI32>,
    close: bool,
    offset: PointI32,
    precision: Option<u32>,
) -> Seq<char> {
    seq!['M'] + (PointI32 {
        x: (path[0].x + offset.x) as i32,
        y: (path[0].y + offset.y) as i32,
    }).spec_svg_string(precision) + seq![' '] + spec_lines(
        path,
        offset,
        precision,
        1,
        1 + spec_line_count(path.len() as int, close),
    ) + (if close {
        seq!['Z', ' ']
    } else {
        Seq::empty()
    })
}

/// The smaller and the larger of two.
pub open spec fn ordered_pair(a: int, b: int) -> (int, int) {
    if a <= b {
        (a, b)
    } else {
        (b, a)
    }
}

/// Four numbers in ascending order.
pub open spec fn sort4(a: int, b: int, c: int, d: int) -> (int, int, int, int) {
    let (a, b) = ordered_pair(a, b);
    let (c, d) = ordered_pair(c, d);
    let (a, c) = ordered_pair(a, c);
    let (b, d) = ordered_pair(b, d);
    let (b, c) = ordered_pair(b, c);
    (a, b, c, d)
}

/// `sort4` puts its arguments in ascending order and hands out each of
/// them.
pub proof fn lemma_sort4(a: int, b: int, c: int, d: int)
    ensures
        ({
            let s = sort4(a, b, c, d);
            &&& s.0 <= s.1 <= s.2 <= s.3
            &&& (a == s.0 || a == s.1 || a == s.2 || a == s.3)
            &&& (b == s.0 || b == s.1 || b == s.2 || b == s.3)
            &&& (c == s.0 || c == s.1 || c == s.2 || c == s.3)
            &&& (d == s.0 || d == s.1 || d == s.2 || d == s.3)
            &&& s.0 + s.1 + s.2 + s.3 == a + b + c + d
        }),
{
}

/// Among the first `n` points, `i` is the first with the least `x`; with
/// no point to look at it is 0.
pub open spec fn is_leftmost(pts: Seq<PointI32>, n: int, i: int) -> bool {
    if n <= 0 {
        i == 0
    } else {
        &&& 0 <= i < n
        &&& forall|j: int| 0 <= j < n ==> pts[i].x <= (#[trigger] pts[j]).x
        &&& forall|j: int| 0 <= j < i ==> pts[i].x < (#[trigger] pts[j]).x
    }
}

/// Among the first `n` points, `i` is the last with the least `y`.
pub open spec fn is_topmost(pts: Seq<PointI32>, n: int, i: int) -> bool {
    if n <= 0 {
        i == 0
    } else {
        &&& 0 <= i < n
        &&& forall|j: int| 0 <= j < n ==> pts[i].y <= (#[trigger] pts[j]).y
        &&& forall|j: int| i < j < n ==> pts[i].y < (#[trigger] pts[j]).y
    }
}

/// Among the first `n` points, `i` is the last with the greatest `x`.
pub open spec fn is_rightmost(pts: Seq<PointI32>, n: int, i: int) -> bool {
    if n <= 0 {
        i == 0
    } else {
        &&& 0 <= i < n
        &&& forall|j: int| 0 <= j < n ==> pts[i].x >= (#[trigger] pts[j]).x
        &&& forall|j: int| i < j < n ==> pts[i].x > (#[trigger] pts[j]).x
    }
}

/// Among the first `n` points, `i` is the last with the greatest `y`.
pub open spec fn is_bottommost(pts: Seq<PointI32>, n: int, i: int) -> bool {
    if n <= 0 {
        i == 0
    } else {
        &&& 0 <= i < n
        &&& forall|j: int| 0 <= j < n ==> pts[i].y >= (#[trigger] pts[j]).y
        &&& forall|j: int| i < j < n ==> pts[i].y > (#[trigger] pts[j]).y
    }
}

/// The part of a path from the point of index `a` to that of index `b`,
/// both included.
fn slice_of(path: &Vec<PointI32>, a: usize, b: usize) -> (part: Vec<PointI32>)
    requires
        a <= b <= path@.len(),
    ensures
        part@ == path@.subrange(a as int, b as int),
{
    let mut part: Vec<PointI32> = Vec::new();
    let mut i: usize = a;
    while i < b
        invariant
            a <= i <= b <= path@.len(),
            part@ == path@.subrange(a as int, i as int),
        decreases b - i,
    {
        part.push(path[i]);
        assert(part@ =~= path@.subrange(a as int, i + 1));
        i += 1;
    }
    part
}

/// The smaller and the larger of two.
fn order(a: usize, b: usize) -> (r: (usize, usize))
    ensures
        (r.0 as int, r.1 as int) == ordered_pair(a as int, b as int),
{
    if a <= b {
        (a, b)
    } else {
        (b, a)
    }
}

impl Path<PointI32> {
    /// Converts a closed path to an open path: a copy without the last
    /// point if that repeats the first, else a plain copy.
    pub fn to_open(&self) -> (p: Self)
        ensures
            p.path@ == spec_open(self.path@),
    {
        let len = self.path.len();
        let keep = if len == 0 {
            0
        } else if self.path[0].x != self.path[len - 1].x || self.path[0].y != self.path[len - 1].y {
            len
        } else {
            len - 1
        };
        let mut points: Vec<PointI32> = Vec::new();
        let mut i: usize = 0;
        while i < keep
            invariant
                i <= keep <= len,
                len == self.path@.len(),
                points@ == self.path@.subrange(0, i as int),
            decreases keep - i,
        {
            points.push(self.path[i]);
            assert(points@ =~= self.path@.subrange(0, i + 1));
            i += 1;
        }
        assert(self.path@.subrange(0, len as int) =~= self.path@);
        assert(len > 0 ==> self.path@.subrange(0, len - 1) =~= self.path@.drop_last());
        Self::from_points(points)
    }

    /// Converts an open path to a closed path: a copy with the first
    /// point repeated at the end unless the last point repeats it
    /// already; an empty path stays empty.
    pub fn to_closed(&self) -> (p: Self)
        ensures
            p.path@ == spec_closed(self.path@),
    {
        let len = self.path.len();
        let mut points: Vec<PointI32> = Vec::new();
        let mut i: usize = 0;
        while i < len
            invariant
                i <= len,
                len == self.path@.len(),
                points@ == self.path@.subrange(0, i as int),
            decreases len - i,
        {
            points.push(self.path[i]);
            assert(points@ =~= self.path@.subrange(0, i + 1));
            i += 1;
        }
        assert(self.path@.subrange(0, len as int) =~= self.path@);
        if len > 0 && (self.path[0].x != self.path[len - 1].x || self.path[0].y
            != self.path[len - 1].y) {
            points.push(self.path[0]);
        }
        Self::from_points(points)
    }

    /// The indices of the extreme points of a closed path, whose last
    /// point repeats the first and is not looked at: the leftmost (the
    /// first of them), the topmost, the rightmost and the bottommost (the
    /// last of them each).
    pub fn extremes(&self) -> (e: (usize, usize, usize, usize))
        requires
            self.path@.len() >= 1,
        ensures
            is_leftmost(self.path@, self.path@.len() - 1, e.0 as int),
            is_topmost(self.path@, self.path@.len() - 1, e.1 as int),
            is_rightmost(self.path@, self.path@.len() - 1, e.2 as int),
            is_bottommost(self.path@, self.path@.len() - 1, e.3 as int),
    {
        let n = self.path.len() - 1;
        let mut left: usize = 0;
        let mut top: usize = 0;
        let mut right: usize = 0;
        let mut bottom: usize = 0;
        let mut i: usize = 0;
        while i < n
            invariant
                n == self.path@.len() - 1,
                i <= n,
                is_leftmost(self.path@, i as int, left as int),
                is_topmost(self.path@, i as int, top as int),
                is_rightmost(self.path@, i as int, right as int),
                is_bottommost(self.path@, i as int, bottom as int),
            decreases n - i,
        {
            let p = self.path[i];
            if p.x < self.path[left].x {
                left = i;
            }
            if p.y <= self.path[top].y {
                top = i;
            }
            if p.x >= self.path[right].x {
                right = i;
            }
            if p.y >= self.path[bottom].y {
                bottom = i;
            }
            i += 1;
        }
        (left, top, right, bottom)
    }

    /// Cuts a closed path at its four extreme points into four sections,
    /// each from one extreme point to the next in the order of the path;
    /// the last section runs over the end of the path to the first
    /// extreme point.
    pub fn extreme_sections(&self) -> (sections: Vec<PathI32>)
        requires
            self.path@.len() >= 1,
        ensures
            sections@.len() == 4,
            exists|e: (int, int, int, int)|
                {
                    &&& is_leftmost(self.path@, self.path@.len() - 1, e.0)
                    &&& is_topmost(self.path@, self.path@.len() - 1, e.1)
                    &&& is_rightmost(self.path@, self.path@.len() - 1, e.2)
                    &&& is_bottommost(self.path@, self.path@.len() - 1, e.3)
                    &&& sections@[0].path@ == self.path@.subrange(
                        sort4(e.0, e.1, e.2, e.3).0,
                        sort4(e.0, e.1, e.2, e.3).1 + 1,
                    )
                    &&& sections@[1].path@ == self.path@.subrange(
                        sort4(e.0, e.1, e.2, e.3).1,
                        sort4(e.0, e.1, e.2, e.3).2 + 1,
                    )
                    &&& sections@[2].path@ == self.path@.subrange(
                        sort4(e.0, e.1, e.2, e.3).2,
                        sort4(e.0, e.1, e.2, e.3).3 + 1,
                    )
                    &&& sections@[3].path@ == self.path@.subrange(
                        sort4(e.0, e.1, e.2, e.3).3,
                        self.path@.len() - 1,
                    ) + self.path@.subrange(0, sort4(e.0, e.1, e.2, e.3).0 + 1)
                },
    {
        let e = self.extremes();
        let (a, b) = order(e.0, e.1);
        let (c, d) = order(e.2, e.3);
        let (a, c) = order(a, c);
        let (b, d) = order(b, d);
        let (b, c) = order(b, c);
        proof {
            lemma_sort4(e.0 as int, e.1 as int, e.2 as int, e.3 as int);
        }
        let len = self.path.len();
        let mut sections: Vec<PathI32> = Vec::new();
        sections.push(Path::from_points(slice_of(&self.path, a, b + 1)));
        sections.push(Path::from_points(slice_of(&self.path, b, c + 1)));
        sections.push(Path::from_points(slice_of(&self.path, c, d + 1)));
        let mut last = slice_of(&self.path, d, len - 1);
        let mut head = slice_of(&self.path, 0, a + 1);
        last.append(&mut head);
        sections.push(Path::from_points(last));
        proof {
            let w = (e.0 as int, e.1 as int, e.2 as int, e.3 as int);
            assert(sort4(w.0, w.1, w.2, w.3) == (a as int, b as int, c as int, d as int));
            assert(is_leftmost(self.path@, self.path@.len() - 1, w.0));
        }
        sections
    }

    /// Moves every point of the path by `o`.
    pub fn offset(&mut self, o: &PointI32)
        requires
            forall|i: int|
                0 <= i < old(self).path@.len() ==> fits_i32((#[trigger] old(self).path@[i]).x + o.x)
                    && fits_i32(old(self).path@[i].y + o.y),
        ensures
            final(self).path@.len() == old(self).path@.len(),
            forall|i: int|
                0 <= i < old(self).path@.len() ==> (#[trigger] final(self).path@[i]).x == old(self).path@[i].x + o.x && final(self).path@[i].y == old(self).path@[i].y + o.y,
    {
        let len = self.path.len();
        let mut i: usize = 0;
        while i < len
            invariant
                i <= len,
                len == self.path@.len(),
                len == old(self).path@.len(),
                forall|k: int|
                    0 <= k < len ==> fits_i32((#[trigger] old(self).path@[k]).x + o.x) && fits_i32(
                        old(self).path@[k].y + o.y,
                    ),
                forall|k: int|
                    0 <= k < i ==> (#[trigger] self.path@[k]).x == old(self).path@[k].x + o.x
                        && self.path@[k].y == old(self).path@[k].y + o.y,
                forall|k: int| i <= k < len ==> self.path@[k] == old(self).path@[k],
            decreases len - i,
        {
            let p = self.path[i];
            assert(fits_i32(old(self).path@[i as int].x + o.x));
            self.path.set(i, PointI32 { x: p.x + o.x, y: p.y + o.y });
            i += 1;
        }
    }

    /// The path as a fragment of an SVG path, every point moved by
    /// `offset`. With `close`, the last point of the path is taken to
    /// repeat the first and is left out.
    pub fn to_svg_string(&self, close: bool, offset: &PointI32, precision: Option<u32>) -> (s:
        String)
        requires
            self.path@.len() >= (if close {
                2int
            } else {
                1int
            }),
            forall|i: int|
                0 <= i < self.path@.len() ==> fits_i32((#[trigger] self.path@[i]).x + offset.x)
                    && fits_i32(self.path@[i].y + offset.y),
        ensures
            s@ == spec_path_svg(self.path@, close, *offset, precision),
    {
        let o = *offset;
        let len = self.path.len();
        let mut string = String::new();
        let first = PointI32 { x: self.path[0].x + o.x, y: self.path[0].y + o.y };
        push_str(&mut string, "M");
        let t = first.to_svg_string(precision);
        push_str(&mut string, t.as_str());
        push_str(&mut string, " ");
        proof {
            reveal_strlit("M");
            reveal_strlit(" ");
            reveal_strlit("L");
            reveal_strlit("Z ");
            assert(string@ =~= seq!['M'] + first.spec_svg_string(precision) + seq![' ']);
        }
        let ghost head = string@;
        let count: usize = if close {
            len - 2
        } else {
            len - 1
        };
        let mut i: usize = 1;
        while i < 1 + count
            invariant
                1 <= i <= 1 + count,
                count < len,
                len == self.path@.len(),
                o == *offset,
                forall|k: int|
                    0 <= k < self.path@.len() ==> fits_i32((#[trigger] self.path@[k]).x + offset.x)
                        && fits_i32(self.path@[k].y + offset.y),
                string@ == head + spec_lines(self.path@, o, precision, 1, i as int),
            decreases 1 + count - i,
        {
            assert(fits_i32(self.path@[i as int].x + offset.x));
            let p = PointI32 { x: self.path[i].x + o.x, y: self.path[i].y + o.y };
            let ghost before = string@;
            push_str(&mut string, "L");
            let t = p.to_svg_string(precision);
            push_str(&mut string, t.as_str());
            push_str(&mut string, " ");
            proof {
                reveal_strlit("L");
                reveal_strlit(" ");
                assert(string@ =~= before + seq!['L'] + p.spec_svg_string(precision) + seq![' ']);
                assert(string@ =~= head + spec_lines(self.path@, o, precision, 1, i + 1));
            }
            i += 1;
        }
        if close {
            push_str(&mut string, "Z ");
            proof {
                reveal_strlit("Z ");
                assert("Z "@ =~= seq!['Z', ' ']);
            }
        }
        assert(string@ =~= spec_path_svg(self.path@, close, *offset, precision));
        string
    }

    /// A copy of the path after simplification: staircases are removed,
    /// then penalties are limited. Every point of the result is a point
    /// of the path.
    pub fn simplify(&self, clockwise: bool) -> (p: Self)
        requires
            coordinates_bounded(self.path@),
        ensures
            p.path@ == limit_from(
                staircase_kept(self.path@, clockwise, self.path@.len() as int),
                0,
                0,
            ),
            forall|k: int| 0 <= k < p.path@.len() ==> self.path@.contains(#[trigger] p.path@[k]),
    {
        let path = PathSimplify::remove_staircase(self, clockwise);
        proof {
            assert(coordinates_bounded(path.path@)) by {
                assert forall|i: int| 0 <= i < path.path@.len() implies -0x4000_0000 <= (
                #[trigger] path.path@[i]).x <= 0x4000_0000 && -0x4000_0000 <= path.path@[i].y
                    <= 0x4000_0000 by {
                    assert(self.path@.contains(path.path@[i]));
                    let j = choose|j: int| 0 <= j < self.path@.len() && self.path@[j] == path.path@[i];
                    assert(-0x4000_0000 <= self.path@[j].x <= 0x4000_0000);
                }
            }
        }
        let result = PathSimplify::limit_penalties(&path);
        proof {
            assert forall|k: int| 0 <= k < result.path@.len() implies self.path@.contains(
                #[trigger] result.path@[k],
            ) by {
                assert(path.path@.contains(result.path@[k]));
            }
        }
        result
    }

    /// The outline of the shape in `image` as a path: the walk around the
    /// shape from its first boundary pixel in raster order, simplified if
    /// the mode is `Polygon`. The path is empty for an image without set
    /// pixels, and `None` if the walk is given up.
    pub fn image_to_path(image: &BinaryImage, clockwise: bool, mode: PathSimplifyMode) -> (r:
        Option<PathI32>)
        requires
            image.wf(),
            image.width <= 0x4000_0000,
            image.height <= 0x4000_0000,
            image.width * image.height <= u32::MAX,
        ensures
            r is Some <==> spec_outline(image, clockwise) is Some,
            r matches Some(path) ==> path.path@ == (match mode {
                PathSimplifyMode::Polygon => limit_from(
                    staircase_kept(
                        spec_outline(image, clockwise)->0,
                        clockwise,
                        spec_outline(image, clockwise)->0.len() as int,
                    ),
                    0,
                    0,
                ),
                _ => spec_outline(image, clockwise)->0,
            }),
    {
        Self::image_to_path_bounded(image, clockwise, mode)
    }

    /// `image_to_path`, with the added promise that every point of the
    /// path lies within the frame of the image.
    pub fn image_to_path_bounded(image: &BinaryImage, clockwise: bool, mode: PathSimplifyMode) -> (r:
        Option<PathI32>)
        requires
            image.wf(),
            image.width <= 0x4000_0000,
            image.height <= 0x4000_0000,
            image.width * image.height <= u32::MAX,
        ensures
            r is Some <==> spec_outline(image, clockwise) is Some,
            r matches Some(path) ==> path.path@ == (match mode {
                PathSimplifyMode::Polygon => limit_from(
                    staircase_kept(
                        spec_outline(image, clockwise)->0,
                        clockwise,
                        spec_outline(image, clockwise)->0.len() as int,
                    ),
                    0,
                    0,
                ),
                _ => spec_outline(image, clockwise)->0,
            }) && forall|i: int|
                0 <= i < path.path@.len() ==> 0 <= (#[trigger] path.path@[i]).x <= image.width
                    && 0 <= path.path@[i].y <= image.height,
    {
        match Self::image_to_path_baseline(image, clockwise) {
            None => None,
            Some(walked) => {
                match mode {
                    PathSimplifyMode::Polygon => {
                        let path = walked.simplify(clockwise);
                        proof {
                            assert forall|i: int| 0 <= i < path.path@.len() implies 0 <= (
                            #[trigger] path.path@[i]).x <= image.width && 0 <= path.path@[i].y
                                <= image.height by {
                                assert(walked.path@.contains(path.path@[i]));
                                let j = choose|j: int|
                                    0 <= j < walked.path@.len() && walked.path@[j] == path.path@[i];
                                assert(0 <= walked.path@[j].x <= image.width);
                            }
                        }
                        Some(path)
                    },
                    PathSimplifyMode::Off | PathSimplifyMode::Spline => Some(walked),
                }
            },
        }
    }

    /// The walk around the shape in `image` from its first boundary pixel.
    fn image_to_path_baseline(image: &BinaryImage, clockwise: bool) -> (r: Option<PathI32>)
        requires
            image.wf(),
            image.width <= 0x4000_0000,
            image.height <= 0x4000_0000,
            image.width * image.height <= u32::MAX,
        ensures
            r matches Some(path) ==> spec_outline(image, clockwise) == Some(path.path@)
                && coordinates_bounded(path.path@) && forall|i: int|
                0 <= i < path.path@.len() ==> 0 <= (#[trigger] path.path@[i]).x <= image.width
                    && 0 <= path.path@[i].y <= image.height,
            r is None ==> spec_outline(image, clockwise) is None,
    {
        let (_boundary, start, _length) = Shape::image_boundary_and_position_length(image);
        let mut path: Vec<PointI32> = Vec::new();
        match start {
            None => Some(PathI32 { path }),
            Some(start) => {
                proof {
                    let n = image.width * image.height;
                    let f = |x: int, y: int| is_boundary(image, x, y);
                    crate::grid::lemma_raster_filter_members(image.width as int, n, f);
                    let c = boundary_cells(image, n)[0];
                    assert(0 <= c.0 < image.width && 0 <= c.1);
                    assert(c.1 < image.height) by (nonlinear_arith)
                        requires
                            c.1 * image.width + c.0 < image.width * image.height,
                            0 <= c.0 < image.width,
                            0 <= c.1,
                    ;
                }
                let mut walker = PathWalker::new(image, start, clockwise);
                let first = walker.next();
                path.push(start);
                loop
                    invariant_except_break
                        walker.wf(),
                        !walker.failed,
                        path@.len() >= 1,
                        path@[0] == start,
                        match spec_walk_from(
                            image,
                            start,
                            walker.curr,
                            walker.prev,
                            walker.prev_prev,
                            clockwise,
                            walker.length as int,
                        ) {
                            Some(rest) => spec_walk(image, start, clockwise) == Some(
                                path@ + rest,
                            ),
                            None => spec_walk(image, start, clockwise) is None,
                        },
                    invariant
                        walker.image == image,
                        walker.start == start,
                        walker.clockwise == clockwise,
                        !walker.first,
                        image.width <= 0x4000_0000,
                        image.height <= 0x4000_0000,
                        coordinates_bounded(path@),
                        forall|i: int|
                            0 <= i < path@.len() ==> 0 <= (#[trigger] path@[i]).x <= image.width
                                && 0 <= path@[i].y <= image.height,
                    ensures
                        walker.failed ==> spec_walk(image, start, clockwise) is None,
                        !walker.failed ==> spec_walk(image, start, clockwise) == Some(path@),
                    decreases WALK_LIMIT + 1 - walker.length,
                {
                    let ghost before = walker;
                    let next = walker.next();
                    match next {
                        Some(p) => {
                            proof {
                                lemma_walk_step(
                                    image,
                                    start,
                                    clockwise,
                                    before.curr,
                                    before.prev,
                                    before.prev_prev,
                                    before.length as int,
                                    walker.curr,
                                    walker.prev,
                                    walker.prev_prev,
                                    walker.length as int,
                                );
                                lemma_admissible_stays_inside(
                                    image,
                                    walker.curr,
                                    walker.prev,
                                    walker.prev_prev,
                                    clockwise,
                                );
                                let rest_after = spec_walk_from(
                                    image,
                                    start,
                                    walker.curr,
                                    walker.prev,
                                    walker.prev_prev,
                                    clockwise,
                                    walker.length as int,
                                );
                                if rest_after is Some {
                                    assert(path@ + (seq![p] + rest_after->0) =~= path@.push(p)
                                        + rest_after->0);
                                }
                            }
                            let ghost prior = path@;
                            path.push(p);
                            proof {
                                assert forall|i: int| 0 <= i < path@.len() implies 0 <= (
                                #[trigger] path@[i]).x <= image.width && 0 <= path@[i].y
                                    <= image.height by {
                                    if i < prior.len() {
                                        assert(path@[i] == prior[i]);
                                    }
                                }
                            }
                        },
                        None => {
                            proof {
                                if walker.failed {
                                    lemma_walk_fail(
                                        image,
                                        start,
                                        clockwise,
                                        before.curr,
                                        before.prev,
                                        before.prev_prev,
                                        before.length as int,
                                        walker.curr,
                                        walker.prev,
                                        walker.prev_prev,
                                        walker.length as int,
                                    );
                                } else {
                                    assert(path@ + Seq::<PointI32>::empty() =~= path@);
                                }
                            }
                            break ;
                        },
                    }
                }
                if walker.failed {
                    None
                } else {
                    Some(PathI32 { path })
                }
            },
        }
    }
}

} // verus!
