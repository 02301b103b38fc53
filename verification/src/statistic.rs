//! Running statistics over integer samples.

use std::collections::HashMap;
use vstd::prelude::*;

use crate::sorting::is_keyed_sort;
use crate::sorting::lemma_keyed_is_stable;
use crate::sorting::sort_keyed;
use crate::sorting::stably_sorted;

verus! {

/// Collects the count, the sum and the sum of squares of samples.
pub struct SimpleStatBuilder {
    pub sum: i32,
    pub sqsum: u64,
    pub count: u32,
}

/// Collects samples, with their histogram.
pub struct SampleStatBuilder {
    pub simple: SimpleStatBuilder,
    pub sequence: Vec<i32>,
    pub histogram: HashMap<i32, i32>,
}

/// What is counted of the samples: how many there are, the one that
/// occurs most often, the one in the middle and how often it occurs, and
/// the number of different ones.
#[derive(Debug, PartialEq, Eq)]
pub struct SampleCounts {
    pub count: i32,
    pub mode: i32,
    pub median: i32,
    pub median_frequency: i32,
    pub histogram_bins: i32,
}

/// The number among the first `n` of `sorted` that occurs most often
/// according to the histogram, the first of them if there are several,
/// with its frequency; 0 and 0 where none occurs.
pub open spec fn spec_mode(sorted: Seq<i32>, histogram: Map<i32, i32>, n: int) -> (i32, int)
    decreases n,
{
    if n <= 0 {
        (0i32, 0int)
    } else {
        let before = spec_mode(sorted, histogram, n - 1);
        if frequency(histogram, sorted[n - 1]) > before.1 {
            (sorted[n - 1], frequency(histogram, sorted[n - 1]))
        } else {
            before
        }
    }
}

/// Puts the numbers in ascending order.
fn sort_numbers(numbers: &mut Vec<i32>)
    ensures
        stably_sorted(old(numbers)@, final(numbers)@, |v: i32| v as int),
{
    let ghost items = numbers@;
    let mut keyed: Vec<(i128, i32)> = Vec::new();
    let n = numbers.len();
    let mut k: usize = 0;
    while k < n
        invariant
            k <= n,
            n == numbers@.len(),
            numbers@ == items,
            keyed@.len() == k,
            forall|t: int|
                0 <= t < k ==> (#[trigger] keyed@[t]).1 == items[t] && keyed@[t].0 == items[t],
        decreases n - k,
    {
        keyed.push((numbers[k] as i128, numbers[k]));
        k += 1;
    }
    let ghost pairs = keyed@;
    let sorted = sort_keyed(keyed);
    proof {
        let src = choose|src: Seq<int>| is_keyed_sort(pairs, sorted@, src);
        lemma_keyed_is_stable(items, pairs, sorted@, |v: i32| v as int, src);
    }
    *numbers = sorted;
}

/// How often `v` occurs according to a histogram: 0 if it has no entry.
pub open spec fn frequency(histogram: Map<i32, i32>, v: i32) -> int {
    if histogram.contains_key(v) {
        histogram[v] as int
    } else {
        0
    }
}

/// The quotient of `n` by 2, rounded towards zero.
pub open spec fn half_trunc(n: int) -> int {
    if n >= 0 {
        n / 2
    } else {
        -((-n) / 2)
    }
}

/// The median of sorted numbers: the middle one, or the mean of the two
/// in the middle rounded towards zero; 0 for no number.
pub open spec fn spec_median(sorted: Seq<i32>) -> int {
    if sorted.len() == 0 {
        0
    } else if sorted.len() % 2 == 0 {
        half_trunc(sorted[sorted.len() / 2 - 1] + sorted[sorted.len() as int / 2])
    } else {
        sorted[sorted.len() as int / 2] as int
    }
}

/// The frequency of the median: that of the middle number, or the mean of
/// those of the two in the middle rounded towards zero; 0 for no number.
pub open spec fn spec_median_frequency(sorted: Seq<i32>, histogram: Map<i32, i32>) -> int {
    if sorted.len() == 0 {
        0
    } else if sorted.len() % 2 == 0 {
        half_trunc(
            frequency(histogram, sorted[sorted.len() / 2 - 1]) + frequency(
                histogram,
                sorted[sorted.len() as int / 2],
            ),
        )
    } else {
        frequency(histogram, sorted[sorted.len() as int / 2])
    }
}

fn half(n: i64) -> (h: i64)
    requires
        i64::MIN < n,
    ensures
        h == half_trunc(n as int),
{
    if n >= 0 {
        n / 2
    } else {
        -((-n) / 2)
    }
}

impl Default for SimpleStatBuilder {
    fn default() -> (b: Self)
        ensures
            b.sum == 0,
            b.sqsum == 0,
            b.count == 0,
    {
        Self { sum: 0, sqsum: 0, count: 0 }
    }
}

impl SimpleStatBuilder {
    pub fn new() -> (b: Self)
        ensures
            b.sum == 0,
            b.sqsum == 0,
            b.count == 0,
    {
        Self { sum: 0, sqsum: 0, count: 0 }
    }

    /// Takes one more sample.
    pub fn add(&mut self, v: i32)
        requires
            i32::MIN <= old(self).sum + v <= i32::MAX,
            old(self).sqsum + v * v <= u64::MAX,
            old(self).count < u32::MAX,
        ensures
            final(self).sum == old(self).sum + v,
            final(self).sqsum == old(self).sqsum + v * v,
            final(self).count == old(self).count + 1,
    {
        self.sum += v;
        assert(0 <= v * v <= 0x4000_0000_0000_0000) by (nonlinear_arith)
            requires
                -0x8000_0000 <= v <= 0x7fff_ffff,
        ;
        let sq: u64 = (v as i64 * v as i64) as u64;
        self.sqsum += sq;
        self.count += 1;
    }
}

impl SampleStatBuilder {
    pub fn new() -> (b: Self)
        ensures
            b.simple.sum == 0,
            b.simple.sqsum == 0,
            b.simple.count == 0,
            b.sequence@.len() == 0,
            b.histogram@ == Map::<i32, i32>::empty(),
    {
        Self { simple: SimpleStatBuilder::new(), sequence: Vec::new(), histogram: HashMap::new() }
    }

    /// Takes one more sample.
    pub fn add(&mut self, v: i32)
        requires
            i32::MIN <= old(self).simple.sum + v <= i32::MAX,
            old(self).simple.sqsum + v * v <= u64::MAX,
            old(self).simple.count < u32::MAX,
            frequency(old(self).histogram@, v) < i32::MAX,
        ensures
            final(self).simple.sum == old(self).simple.sum + v,
            final(self).simple.sqsum == old(self).simple.sqsum + v * v,
            final(self).simple.count == old(self).simple.count + 1,
            final(self).sequence@ == old(self).sequence@.push(v),
            final(self).histogram@ == old(self).histogram@.insert(
                v,
                (frequency(old(self).histogram@, v) + 1) as i32,
            ),
    {
        broadcast use vstd::std_specs::hash::group_hash_axioms;

        self.simple.add(v);
        let counter: i32 = match self.histogram.get(&v) {
            Some(c) => *c,
            None => 0,
        };
        self.histogram.insert(v, counter + 1);
        self.sequence.push(v);
    }

    /// Sorts the samples and counts them: the mode is the least of the
    /// samples that occur most often.
    pub fn build(&mut self) -> (c: SampleCounts)
        ensures
            stably_sorted(old(self).sequence@, final(self).sequence@, |v: i32| v as int),
            final(self).histogram@ == old(self).histogram@,
            final(self).simple == old(self).simple,
            c.count == old(self).simple.count as i32,
            c.mode == spec_mode(
                final(self).sequence@,
                old(self).histogram@,
                final(self).sequence@.len() as int,
            ).0,
            c.median == spec_median(final(self).sequence@),
            c.median_frequency == spec_median_frequency(
                final(self).sequence@,
                old(self).histogram@,
            ),
            c.histogram_bins == old(self).histogram@.len() as i32,
    {
        broadcast use vstd::std_specs::hash::group_hash_axioms;

        sort_numbers(&mut self.sequence);
        let n = self.sequence.len();
        let mut mode: i32 = 0;
        let mut best: i32 = 0;
        let mut i: usize = 0;
        while i < n
            invariant
                i <= n,
                n == self.sequence@.len(),
                (mode, best as int) == spec_mode(self.sequence@, self.histogram@, i as int),
            decreases n - i,
        {
            let f: i32 = match self.histogram.get(&self.sequence[i]) {
                Some(c) => *c,
                None => 0,
            };
            if f > best {
                mode = self.sequence[i];
                best = f;
            }
            i += 1;
        }
        SampleCounts {
            count: self.simple.count as i32,
            mode,
            median: Self::median(self.sequence.as_slice()),
            median_frequency: Self::median_frequency(self.sequence.as_slice(), &self.histogram),
            histogram_bins: self.histogram.len() as i32,
        }
    }

    /// The median of sorted numbers.
    pub fn median(sorted_numbers: &[i32]) -> (m: i32)
        ensures
            m == spec_median(sorted_numbers@),
    {
        if sorted_numbers.len() == 0 {
            return 0;
        }
        let mid = sorted_numbers.len() / 2;
        if sorted_numbers.len() % 2 == 0 {
            half(sorted_numbers[mid - 1] as i64 + sorted_numbers[mid] as i64) as i32
        } else {
            sorted_numbers[mid]
        }
    }

    /// The frequency of the median of sorted numbers.
    pub fn median_frequency(sorted_numbers: &[i32], histogram: &HashMap<i32, i32>) -> (f: i32)
        ensures
            f == spec_median_frequency(sorted_numbers@, histogram@),
    {
        broadcast use vstd::std_specs::hash::group_hash_axioms;

        if sorted_numbers.len() == 0 {
            return 0;
        }
        let mid = sorted_numbers.len() / 2;
        if sorted_numbers.len() % 2 == 0 {
            let a: i32 = match histogram.get(&sorted_numbers[mid - 1]) {
                Some(c) => *c,
                None => 0,
            };
            let b: i32 = match histogram.get(&sorted_numbers[mid]) {
                Some(c) => *c,
                None => 0,
            };
            half(a as i64 + b as i64) as i32
        } else {
            match histogram.get(&sorted_numbers[mid]) {
                Some(c) => *c,
                None => 0,
            }
        }
    }
}

} // verus!
