//! The histogram of cluster areas: one bin per area, sorted by area.

use vstd::prelude::*;

verus! {

/// One bin: how many clusters have the area `area`.
pub struct Area {
    pub area: usize,
    pub count: usize,
}

/// The bins are in strictly ascending order of area.
pub open spec fn bins_sorted(bins: Seq<Area>) -> bool {
    forall|i: int, j: int| 0 <= i < j < bins.len() ==> bins[i].area < bins[j].area
}

/// Every bin has an area from 1 to `n`.
pub open spec fn bins_within(bins: Seq<Area>, n: int) -> bool {
    forall|i: int| 0 <= i < bins.len() ==> 1 <= (#[trigger] bins[i]).area <= n
}

/// Sorted bins with areas from 1 to `n` are at most `n`: the bin at
/// position `i` has an area of at least `i + 1`.
pub proof fn lemma_bins_bounded(bins: Seq<Area>, n: int)
    requires
        bins_sorted(bins),
        bins_within(bins, n),
    ensures
        bins.len() <= n || bins.len() == 0,
        forall|i: int| 0 <= i < bins.len() ==> (#[trigger] bins[i]).area >= i + 1,
    decreases bins.len(),
{
    if bins.len() > 0 {
        let front = bins.drop_last();
        assert(bins_sorted(front)) by {
            assert forall|i: int, j: int| 0 <= i < j < front.len() implies front[i].area
                < front[j].area by {
                assert(front[i] == bins[i] && front[j] == bins[j]);
            }
        }
        assert(bins_within(front, n)) by {
            assert forall|i: int| 0 <= i < front.len() implies 1 <= (#[trigger] front[i]).area
                <= n by {
                assert(front[i] == bins[i]);
            }
        }
        lemma_bins_bounded(front, n);
        let last = bins.len() - 1;
        assert forall|i: int| 0 <= i < bins.len() implies (#[trigger] bins[i]).area >= i + 1 by {
            if i < last {
                assert(front[i] == bins[i]);
            } else if last > 0 {
                assert(front[last - 1] == bins[last - 1]);
                assert(bins[last - 1].area < bins[last].area);
            }
        }
        assert(bins[last].area >= last + 1);
    }
}

/// The bins before place `p` have an area below `key`, the others do not.
pub open spec fn splits_at(bins: Seq<Area>, key: usize, p: int) -> bool {
    &&& 0 <= p <= bins.len()
    &&& forall|i: int| 0 <= i < p ==> (#[trigger] bins[i]).area < key
    &&& forall|i: int| p <= i < bins.len() ==> (#[trigger] bins[i]).area >= key
}

/// The count `count` with one more, as far as it can go.
pub open spec fn one_more(count: usize) -> usize {
    if count < usize::MAX {
        (count + 1) as usize
    } else {
        count
    }
}

/// `after` is `before` with one more cluster of area `key` recorded: the
/// count of the bin of that area is one higher, or, where there was no
/// such bin, one with count 1 stands at its place in the order.
pub open spec fn bumped(after: Seq<Area>, before: Seq<Area>, key: usize) -> bool {
    exists|p: int| #[trigger]
        splits_at(before, key, p) && after == (if p < before.len() && before[p].area == key {
            before.update(p, (Area { area: key, count: one_more(before[p].count) }))
        } else {
            before.insert(p, (Area { area: key, count: 1 }))
        })
}

/// `after` is `before` with one cluster of area `key` taken out: the
/// count of the bin of that area, if there is one and it is not 0, is one
/// lower.
pub open spec fn dropped(after: Seq<Area>, before: Seq<Area>, key: usize) -> bool {
    &&& after.len() == before.len()
    &&& forall|i: int|
        0 <= i < before.len() ==> #[trigger] after[i] == (if before[i].area == key
            && before[i].count > 0 {
            (Area { area: key, count: (before[i].count - 1) as usize })
        } else {
            before[i]
        })
}

/// Where the bin of area `key` is, or where it would have to be inserted.
pub fn find_area(bins: &Vec<Area>, key: usize) -> (r: Result<usize, usize>)
    requires
        bins_sorted(bins@),
    ensures
        match r {
            Ok(p) => p < bins@.len() && bins@[p as int].area == key,
            Err(p) => p <= bins@.len() && (forall|i: int|
                0 <= i < p ==> (#[trigger] bins@[i]).area < key) && (forall|i: int|
                p <= i < bins@.len() ==> (#[trigger] bins@[i]).area > key),
        },
{
    let mut lo: usize = 0;
    let mut hi: usize = bins.len();
    while lo < hi
        invariant
            lo <= hi <= bins@.len(),
            bins_sorted(bins@),
            forall|i: int| 0 <= i < lo ==> (#[trigger] bins@[i]).area < key,
            forall|i: int| hi <= i < bins@.len() ==> (#[trigger] bins@[i]).area > key,
        decreases hi - lo,
    {
        let mid = lo + (hi - lo) / 2;
        let a = bins[mid].area;
        if a == key {
            return Ok(mid);
        } else if a < key {
            assert forall|i: int| 0 <= i < mid + 1 implies (#[trigger] bins@[i]).area < key by {
                if i < mid {
                    assert(bins@[i].area < bins@[mid as int].area);
                }
            }
            lo = mid + 1;
        } else {
            assert forall|i: int| mid <= i < bins@.len() implies (#[trigger] bins@[i]).area
                > key by {
                if i > mid {
                    assert(bins@[mid as int].area < bins@[i].area);
                }
            }
            hi = mid;
        }
    }
    Err(lo)
}

/// Records one more cluster of area `key`: the count of its bin goes up
/// by one (it stays at the greatest number it can hold), or a new bin with
/// count 1 is inserted in order.
pub fn bump_area(bins: &mut Vec<Area>, key: usize)
    requires
        bins_sorted(old(bins)@),
    ensures
        bins_sorted(final(bins)@),
        final(bins)@.len() >= old(bins)@.len(),
        final(bins)@.len() <= old(bins)@.len() + 1,
        forall|n: int| bins_within(old(bins)@, n) && 1 <= key <= n ==> bins_within(final(bins)@, n),
        exists|p: int| 0 <= p < final(bins)@.len() && (#[trigger] final(bins)@[p]).area == key,
        bumped(final(bins)@, old(bins)@, key),
        forall|i: int|
            0 <= i < old(bins)@.len() && (#[trigger] old(bins)@[i]).area < key ==> final(bins)@[i]
                == old(bins)@[i],
        forall|i: int|
            0 <= i < old(bins)@.len() && (#[trigger] old(bins)@[i]).area > key ==> exists|j: int|
                0 <= j < final(bins)@.len() && (#[trigger] final(bins)@[j]).area == old(bins)@[i].area,
{
    match find_area(bins, key) {
        Ok(pos) => {
            let c = bins[pos].count;
            if c < usize::MAX {
                bins[pos].count = c + 1;
            }
            proof {
                assert(final(bins)@[pos as int].area == key);
                assert forall|n: int| bins_within(old(bins)@, n) && 1 <= key <= n implies bins_within(
                    final(bins)@,
                    n,
                ) by {
                    assert forall|i: int| 0 <= i < final(bins)@.len() implies 1 <= (#[trigger] final(bins)@[i]).area <= n by {
                        assert(old(bins)@[i].area == final(bins)@[i].area);
                    }
                }
                assert(splits_at(old(bins)@, key, pos as int)) by {
                    assert forall|i: int| 0 <= i < pos implies (#[trigger] old(bins)@[i]).area
                        < key by {
                        assert(old(bins)@[i].area < old(bins)@[pos as int].area);
                    }
                    assert forall|i: int| pos <= i < old(bins)@.len() implies (
                    #[trigger] old(bins)@[i]).area >= key by {
                        if i > pos {
                            assert(old(bins)@[pos as int].area < old(bins)@[i].area);
                        }
                    }
                }
                assert(final(bins)@ =~= old(bins)@.update(
                    pos as int,
                    (Area { area: key, count: one_more(old(bins)@[pos as int].count) }),
                ));
                assert forall|i: int|
                    0 <= i < old(bins)@.len() && (#[trigger] old(bins)@[i]).area > key implies exists|
                    j: int,
                |
                    0 <= j < final(bins)@.len() && (#[trigger] final(bins)@[j]).area == old(bins)@[i].area by {
                    assert(final(bins)@[i].area == old(bins)@[i].area);
                }
            }
        },
        Err(pos) => {
            bins.insert(pos, Area { area: key, count: 1 });
            proof {
                assert(final(bins)@[pos as int].area == key);
                assert(splits_at(old(bins)@, key, pos as int));
                assert(final(bins)@ =~= old(bins)@.insert(pos as int, (Area { area: key, count: 1 })));
                assert forall|i: int, j: int| 0 <= i < j < final(bins)@.len() implies final(bins)@[i].area
                    < final(bins)@[j].area by {
                    let oi = if i < pos {
                        i
                    } else {
                        i - 1
                    };
                    let oj = if j < pos {
                        j
                    } else {
                        j - 1
                    };
                    if i != pos && j != pos {
                        assert(old(bins)@[oi].area < old(bins)@[oj].area);
                    }
                }
                assert forall|n: int| bins_within(old(bins)@, n) && 1 <= key <= n implies bins_within(
                    final(bins)@,
                    n,
                ) by {
                    assert forall|i: int| 0 <= i < final(bins)@.len() implies 1 <= (#[trigger] final(bins)@[i]).area <= n by {
                        if i < pos {
                            assert(final(bins)@[i] == old(bins)@[i]);
                        } else if i > pos {
                            assert(final(bins)@[i] == old(bins)@[i - 1]);
                        }
                    }
                }
                assert forall|i: int|
                    0 <= i < old(bins)@.len() && (#[trigger] old(bins)@[i]).area > key implies exists|
                    j: int,
                |
                    0 <= j < final(bins)@.len() && (#[trigger] final(bins)@[j]).area == old(bins)@[i].area by {
                    assert(i >= pos);
                    assert(final(bins)@[i + 1] == old(bins)@[i]);
                }
            }
        },
    }
}

/// Takes one cluster of area `key` out of the histogram: the count of its
/// bin goes down by one, unless there is no such bin or its count is zero.
pub fn drop_area(bins: &mut Vec<Area>, key: usize)
    requires
        bins_sorted(old(bins)@),
    ensures
        final(bins)@.len() == old(bins)@.len(),
        forall|i: int|
            0 <= i < old(bins)@.len() ==> (#[trigger] final(bins)@[i]).area == old(bins)@[i].area,
        forall|i: int|
            0 <= i < old(bins)@.len() ==> (#[trigger] final(bins)@[i]).count == (if old(bins)@[i].area == key && old(bins)@[i].count > 0 {
                (old(bins)@[i].count - 1) as usize
            } else {
                old(bins)@[i].count
            }),
        dropped(final(bins)@, old(bins)@, key),
{
    match find_area(bins, key) {
        Ok(pos) => {
            let c = bins[pos].count;
            if c > 0 {
                bins[pos].count = c - 1;
            }
            proof {
                assert forall|i: int| 0 <= i < old(bins)@.len() && i != pos implies old(bins)@[i].area
                    != key by {
                    if i < pos {
                        assert(old(bins)@[i].area < old(bins)@[pos as int].area);
                    } else {
                        assert(old(bins)@[pos as int].area < old(bins)@[i].area);
                    }
                }
            }
        },
        Err(_) => {},
    }
}

} // verus!
