//! What it means for a list to be sorted by a stable sort.

use vstd::prelude::*;

verus! {

/// `after` is `before` put in ascending order of `key` by the source
/// positions `src`, items of equal key staying in their former order.
pub open spec fn is_stable_sort<T>(
    before: Seq<T>,
    after: Seq<T>,
    key: spec_fn(T) -> int,
    src: Seq<int>,
) -> bool {
    &&& after.len() == before.len()
    &&& src.len() == before.len()
    &&& forall|i: int|
        0 <= i < src.len() ==> 0 <= #[trigger] src[i] < before.len() && after[i] == before[src[i]]
    &&& forall|i: int, j: int| 0 <= i < j < src.len() ==> src[i] != src[j]
    &&& forall|i: int, j: int|
        0 <= i < j < src.len() ==> key(after[i]) < key(after[j]) || (key(after[i]) == key(after[j])
            && src[i] < src[j])
}

/// `after` is `before` in ascending order of `key`, items of equal key
/// staying in their former order.
pub open spec fn stably_sorted<T>(before: Seq<T>, after: Seq<T>, key: spec_fn(T) -> int) -> bool {
    exists|src: Seq<int>| is_stable_sort(before, after, key, src)
}

/// A stable sort leaves no item out: each position of the list before is
/// the source of a position of the list after.
pub proof fn lemma_sorted_covers<T>(
    before: Seq<T>,
    after: Seq<T>,
    key: spec_fn(T) -> int,
    src: Seq<int>,
    k: int,
)
    requires
        is_stable_sort(before, after, key, src),
        0 <= k < before.len(),
    ensures
        exists|t: int| 0 <= t < src.len() && src[t] == k,
{
    assert(src.no_duplicates());
    src.unique_seq_to_set();
    vstd::set_lib::lemma_int_range(0, before.len() as int);
    let all = vstd::set_lib::set_int_range(0, before.len() as int);
    assert(src.to_set().subset_of(all)) by {
        assert forall|v: int| src.to_set().contains(v) implies all.contains(v) by {
            let t = choose|t: int| 0 <= t < src.len() && src[t] == v;
        }
    }
    if !src.to_set().contains(k) {
        let less = all.remove(k);
        assert(src.to_set().subset_of(less));
        vstd::set_lib::lemma_len_subset(src.to_set(), less);
    }
}

/// `sorted` holds the second parts of the pairs `keyed` in ascending order
/// of their first parts by the source positions `src`, pairs of equal
/// first part staying in their former order.
pub open spec fn is_keyed_sort<T>(keyed: Seq<(i128, T)>, sorted: Seq<T>, src: Seq<int>) -> bool {
    &&& sorted.len() == keyed.len()
    &&& src.len() == keyed.len()
    &&& forall|i: int|
        0 <= i < src.len() ==> 0 <= #[trigger] src[i] < keyed.len() && sorted[i] == keyed[src[i]].1
    &&& forall|i: int, j: int| 0 <= i < j < src.len() ==> src[i] != src[j]
    &&& forall|i: int, j: int|
        0 <= i < j < src.len() ==> keyed[src[i]].0 < keyed[src[j]].0 || (keyed[src[i]].0
            == keyed[src[j]].0 && src[i] < src[j])
}

/// `slice::sort_by_key` on pairs, with the first part of a pair as its
/// key: a stable sort, so the pairs come back in ascending order of
/// their first parts, pairs of equal first part in their former order.
#[verifier::external_body]
fn sort_pairs<T>(list: &mut Vec<(i128, T)>)
    ensures
        stably_sorted(old(list)@, final(list)@, |e: (i128, T)| e.0 as int),
{
    list.sort_by_key(|e| e.0);
}

/// Sorts items by the keys that they are paired with, and hands the
/// items back without their keys.
pub fn sort_keyed<T: Copy>(keyed: Vec<(i128, T)>) -> (sorted: Vec<T>)
    ensures
        exists|src: Seq<int>| is_keyed_sort(keyed@, sorted@, src),
{
    let mut pairs = keyed;
    sort_pairs(&mut pairs);
    let ghost key = |e: (i128, T)| e.0 as int;
    let ghost src = choose|src: Seq<int>| is_stable_sort(keyed@, pairs@, key, src);
    let mut sorted: Vec<T> = Vec::new();
    let n = pairs.len();
    let mut i: usize = 0;
    while i < n
        invariant
            i <= n,
            n == pairs@.len(),
            is_stable_sort(keyed@, pairs@, key, src),
            sorted@.len() == i,
            forall|k: int| 0 <= k < i ==> #[trigger] sorted@[k] == pairs@[k].1,
        decreases n - i,
    {
        sorted.push(pairs[i].1);
        i += 1;
    }
    proof {
        assert forall|a: int, b: int| 0 <= a < b < src.len() implies keyed@[src[a]].0 < keyed@[src[b]].0
            || (keyed@[src[a]].0 == keyed@[src[b]].0 && src[a] < src[b]) by {
            assert(pairs@[a] == keyed@[src[a]]);
            assert(pairs@[b] == keyed@[src[b]]);
            assert(key(pairs@[a]) < key(pairs@[b]) || (key(pairs@[a]) == key(pairs@[b]) && src[a]
                < src[b]));
        }
        assert(is_keyed_sort(keyed@, sorted@, src));
    }
    sorted
}

/// Items sorted by the keys that they were paired with are the items in
/// ascending order of `key`, where every item was paired with its key.
pub proof fn lemma_keyed_is_stable<T>(
    items: Seq<T>,
    keyed: Seq<(i128, T)>,
    sorted: Seq<T>,
    key: spec_fn(T) -> int,
    src: Seq<int>,
)
    requires
        keyed.len() == items.len(),
        forall|i: int|
            0 <= i < items.len() ==> (#[trigger] keyed[i]).1 == items[i] && keyed[i].0 == key(
                items[i],
            ),
        is_keyed_sort(keyed, sorted, src),
    ensures
        is_stable_sort(items, sorted, key, src),
        stably_sorted(items, sorted, key),
{
    assert forall|i: int| 0 <= i < src.len() implies 0 <= #[trigger] src[i] < items.len()
        && sorted[i] == items[src[i]] by {
        assert(keyed[src[i]].1 == items[src[i]]);
    }
    assert forall|i: int, j: int| 0 <= i < j < src.len() implies #[trigger] key(sorted[i])
        < #[trigger] key(sorted[j]) || (key(sorted[i]) == key(sorted[j]) && src[i] < src[j]) by {
        assert(keyed[src[i]].1 == items[src[i]]);
        assert(keyed[src[j]].1 == items[src[j]]);
        assert(sorted[i] == keyed[src[i]].1);
        assert(sorted[j] == keyed[src[j]].1);
        assert(keyed[src[i]].0 < keyed[src[j]].0 || (keyed[src[i]].0 == keyed[src[j]].0 && src[i]
            < src[j]));
        assert(sorted[i] == items[src[i]]);
        assert(sorted[j] == items[src[j]]);
        assert(key(sorted[i]) == keyed[src[i]].0 as int);
        assert(key(sorted[j]) == keyed[src[j]].0 as int);
    }
    assert(is_stable_sort(items, sorted, key, src));
}

} // verus!
