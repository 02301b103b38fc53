//! Splines: series of connecting cubic Bezier curves.

use vstd::prelude::*;
use vstd::std_specs::slice::into_iter_elts;

verus! {

/// Series of connecting cubic Bezier curves, over any kind of point.
///
/// The first curve is given by the first four points; each later curve by
/// the last point of the curve before it and three points more.
#[derive(Debug, Clone)]
pub struct Spline<T> {
    pub points: Vec<T>,
}

impl<T> Default for Spline<T> {
    fn default() -> (s: Self)
        ensures
            s.points@.len() == 0,
    {
        Self { points: Vec::new() }
    }
}

impl<T> Spline<T> {
    /// One point and three for every curve.
    pub open spec fn wf(&self) -> bool {
        self.points@.len() >= 1 && (self.points@.len() - 1) % 3 == 0
    }

    /// The number of curves.
    pub open spec fn spec_num_curves(&self) -> int {
        if self.points@.len() > 0 {
            (self.points@.len() - 1) / 3
        } else {
            0
        }
    }

    /// The control points of curve `k`.
    pub open spec fn spec_curve(&self, k: int) -> Seq<T> {
        self.points@.subrange(3 * k, 3 * k + 4)
    }

    /// A well-formed spline has one point and three for each of its curves.
    pub proof fn lemma_length(&self)
        requires
            self.wf(),
        ensures
            self.points@.len() == 1 + 3 * self.spec_num_curves(),
    {
    }

    /// Creates a spline without curves that starts at `point`.
    pub fn new(point: T) -> (s: Self)
        ensures
            s.wf(),
            s.points@ == seq![point],
            s.spec_num_curves() == 0,
    {
        let mut points: Vec<T> = Vec::new();
        points.push(point);
        Self { points }
    }

    /// Adds a curve to the end of the spline, given by the second to the
    /// fourth of its control points; the first is the last point of the
    /// spline so far.
    pub fn add(&mut self, point2: T, point3: T, point4: T)
        ensures
            final(self).points@ == old(self).points@.push(point2).push(point3).push(point4),
            old(self).wf() ==> final(self).wf() && final(self).spec_num_curves() == old(self).spec_num_curves() + 1,
    {
        self.points.push(point2);
        self.points.push(point3);
        self.points.push(point4);
    }

    /// Returns an iterator on the points of the spline.
    pub fn iter(&self) -> (it: core::slice::Iter<'_, T>)
        ensures
            into_iter_elts(it) == self.points@,
    {
        broadcast use vstd::std_specs::slice::axiom_spec_slice_iter;

        let it = self.points.iter();
        proof {
            assert(self.points@.as_ref().unref() =~= self.points@);
        }
        it
    }

    /// Returns the number of points on the spline.
    pub fn len(&self) -> (n: usize)
        ensures
            n == self.points@.len(),
    {
        self.points.len()
    }

    /// Returns the number of curves on the spline.
    pub fn num_curves(&self) -> (n: usize)
        ensures
            n == self.spec_num_curves(),
    {
        if self.points.len() > 0 {
            (self.points.len() - 1) / 3
        } else {
            0
        }
    }

    /// Returns true if the spline holds no curve: a curve takes four
    /// points.
    pub fn is_empty(&self) -> (e: bool)
        ensures
            e == (self.points@.len() <= 3),
            self.wf() ==> e == (self.spec_num_curves() == 0),
    {
        self.points.len() <= 3
    }
}

/// The indices below `n` at which a flag is set, in ascending order.
pub open spec fn flagged(flags: Seq<bool>, n: int) -> Seq<usize>
    decreases n,
{
    if n <= 0 {
        Seq::empty()
    } else if flags[n - 1] {
        flagged(flags, n - 1).push((n - 1) as usize)
    } else {
        flagged(flags, n - 1)
    }
}

/// The points at which a closed path of `flags.len()` points is cut into
/// curves: the flagged ones; where none is flagged, the first point; and
/// where that leaves one, also the point half way round from it.
pub open spec fn spec_cut_points(flags: Seq<bool>) -> Seq<usize> {
    let len = flags.len() as int;
    let marked = flagged(flags, len);
    let first = if marked.len() == 0 {
        seq![0usize]
    } else {
        marked
    };
    if first.len() == 1 {
        first.push(((first[0] + len / 2) % len) as usize)
    } else {
        first
    }
}

/// The part of a closed path from the point of index `from` round to the
/// point of index `to`, both included; nothing where the two are one.
pub open spec fn spec_circular_subpath<T>(path: Seq<T>, from: int, to: int) -> Seq<T> {
    if from < to {
        path.subrange(from, to + 1)
    } else if from > to {
        path.subrange(from, path.len() as int) + path.subrange(0, to + 1)
    } else {
        Seq::empty()
    }
}

/// A flagged index is below the number of flags looked at.
pub proof fn lemma_flagged_below(flags: Seq<bool>, n: int)
    requires
        0 <= n <= flags.len(),
    ensures
        flagged(flags, n).len() <= n,
        forall|k: int| 0 <= k < flagged(flags, n).len() ==> #[trigger] flagged(flags, n)[k] < n,
    decreases n,
{
    if n > 0 {
        lemma_flagged_below(flags, n - 1);
    }
}

/// The points at which a closed path is cut into curves.
pub fn cut_points(splice_points: &[bool]) -> (cuts: Vec<usize>)
    requires
        splice_points@.len() > 0,
    ensures
        cuts@ == spec_cut_points(splice_points@),
        cuts@.len() >= 2,
        forall|k: int| 0 <= k < cuts@.len() ==> #[trigger] cuts@[k] < splice_points@.len(),
{
    let len = splice_points.len();
    let mut cuts: Vec<usize> = Vec::new();
    let mut i: usize = 0;
    while i < len
        invariant
            i <= len,
            len == splice_points@.len(),
            cuts@ == flagged(splice_points@, i as int),
        decreases len - i,
    {
        if splice_points[i] {
            cuts.push(i);
        }
        i += 1;
    }
    proof {
        lemma_flagged_below(splice_points@, len as int);
    }
    if cuts.len() == 0 {
        cuts.push(0);
    }
    if cuts.len() == 1 {
        let first = cuts[0];
        let second: u128 = (first as u128 + (len / 2) as u128) % (len as u128);
        cuts.push(second as usize);
    }
    cuts
}

impl<T: Copy> Spline<T> {
    /// The control points of every curve, four for each.
    pub fn get_control_points(&self) -> (curves: Vec<[T; 4]>)
        ensures
            self.points@.len() >= 4 ==> curves@.len() == (self.points@.len() - 1) / 3,
            self.points@.len() < 4 ==> curves@.len() == 0,
            forall|k: int|
                0 <= k < curves@.len() ==> (#[trigger] curves@[k])@ == self.spec_curve(k),
    {
        let mut curves: Vec<[T; 4]> = Vec::new();
        let n = self.points.len();
        let mut i: usize = 0;
        while n >= 4 && i < n - 3
            invariant
                n == self.points@.len(),
                i % 3 == 0,
                i <= n,
                n < 4 ==> i == 0,
                n >= 4 ==> i < n,
                curves@.len() == i / 3,
                forall|k: int|
                    0 <= k < curves@.len() ==> (#[trigger] curves@[k])@ == self.spec_curve(k),
            ensures
                n >= 4 ==> n - 3 <= i,
            decreases n - i,
        {
            let curve = [self.points[i], self.points[i + 1], self.points[i + 2], self.points[i + 3]];
            assert(curve@ =~= self.spec_curve(i as int / 3));
            curves.push(curve);
            i += 3;
        }
        curves
    }

    /// The part of a closed path from the point of index `from` round to
    /// the point of index `to`, both included.
    pub fn get_circular_subpath(path: &[T], from: usize, to: usize) -> (subpath: Vec<T>)
        requires
            from < path@.len(),
            to < path@.len(),
        ensures
            subpath@ == spec_circular_subpath(path@, from as int, to as int),
    {
        let len = path.len();
        let mut subpath: Vec<T> = Vec::new();
        if from < to {
            let mut i: usize = from;
            while i <= to
                invariant
                    from <= i <= to + 1,
                    to < path@.len(),
                    subpath@ == path@.subrange(from as int, i as int),
                decreases to + 1 - i,
            {
                subpath.push(path[i]);
                assert(subpath@ =~= path@.subrange(from as int, i + 1));
                i += 1;
            }
        } else if from > to {
            let mut i: usize = from;
            while i < len
                invariant
                    from <= i <= len,
                    len == path@.len(),
                    subpath@ == path@.subrange(from as int, i as int),
                decreases len - i,
            {
                subpath.push(path[i]);
                assert(subpath@ =~= path@.subrange(from as int, i + 1));
                i += 1;
            }
            let mut j: usize = 0;
            while j <= to
                invariant
                    j <= to + 1,
                    to < path@.len(),
                    len == path@.len(),
                    subpath@ == path@.subrange(from as int, len as int) + path@.subrange(
                        0,
                        j as int,
                    ),
                decreases to + 1 - j,
            {
                subpath.push(path[j]);
                assert(subpath@ =~= path@.subrange(from as int, len as int) + path@.subrange(
                    0,
                    j + 1,
                ));
                j += 1;
            }
        }
        subpath
    }
}

} // verus!
