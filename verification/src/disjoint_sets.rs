//! Disjoint sets and the grouping of items by an equivalence test.

use std::collections::HashMap;
use std::collections::HashSet;
use std::hash::Hash;
use vstd::prelude::*;
use vstd::std_specs::hash::obeys_key_model;

verus! {

pub type Label = u32;

/// Data structure for building disjoint sets: a forest in which every
/// item hangs below the representative of its set.
pub struct Forests<T: Eq + Hash> {
    parents: Vec<Label>,
    ranks: Vec<u8>,
    labels: HashMap<T, Label>,
    /// The representative of each label.
    root: Ghost<Seq<int>>,
    /// A height for each label that falls from child to parent.
    dist: Ghost<Seq<nat>>,
}

impl<T: Eq + Hash> Forests<T> {
    /// The number of items.
    pub closed spec fn spec_len(&self) -> nat {
        self.parents@.len()
    }

    /// Has a set been made for `item`?
    pub closed spec fn contains(&self, item: T) -> bool {
        self.labels@.contains_key(item)
    }

    /// The representative of the set of `item`, or `None` if no set was
    /// made for it.
    pub closed spec fn spec_find(&self, item: T) -> Option<Label> {
        if self.labels@.contains_key(item) {
            Some(self.root@[self.labels@[item] as int] as Label)
        } else {
            None
        }
    }

    /// The rank of every label: a bound on the height of the tree below
    /// it, by which a union picks the representative.
    pub closed spec fn spec_ranks(&self) -> Seq<u8> {
        self.ranks@
    }

    /// The representatives of all sets.
    pub closed spec fn spec_roots(&self) -> Set<Label> {
        Set::new(
            |r: Label| exists|i: int| 0 <= i < self.root@.len() && #[trigger] self.root@[i] == r,
        )
    }

    /// The forest is sound.
    pub closed spec fn inv(&self) -> bool {
        let n = self.parents@.len() as int;
        &&& obeys_key_model::<T>()
        &&& self.ranks@.len() == n
        &&& self.root@.len() == n
        &&& self.dist@.len() == n
        &&& n <= u32::MAX
        &&& forall|item: T|
            self.labels@.contains_key(item) ==> (#[trigger] self.labels@[item]) < n
        &&& forall|i: int|
            0 <= i < n ==> 0 <= #[trigger] self.root@[i] < n && self.parents@[self.root@[i]]
                == self.root@[i] && self.root@[self.root@[i]] == self.root@[i]
        &&& forall|i: int|
            0 <= i < n ==> (#[trigger] self.parents@[i]) < n && (self.parents@[i] != i
                ==> self.root@[self.parents@[i] as int] == self.root@[i]
                && self.dist@[self.parents@[i] as int] < self.dist@[i]) && (self.parents@[i] == i
                ==> self.root@[i] == i)
    }

    /// The representatives among the first `n` labels.
    spec fn roots_upto(&self, n: int) -> Set<Label> {
        Set::new(|r: Label| exists|i: int| 0 <= i < n && #[trigger] self.root@[i] == r)
    }

    proof fn lemma_roots_upto_finite(&self, n: int)
        requires
            self.inv(),
            0 <= n <= self.root@.len(),
        ensures
            self.roots_upto(n).finite(),
        decreases n,
    {
        if n == 0 {
            assert(self.roots_upto(n) =~= Set::<Label>::empty());
        } else {
            self.lemma_roots_upto_finite(n - 1);
            let r = self.root@[n - 1] as Label;
            assert forall|q: Label| self.roots_upto(n).contains(q) == self.roots_upto(n - 1).insert(
                r,
            ).contains(q) by {
                if self.roots_upto(n).contains(q) {
                    let i = choose|i: int| 0 <= i < n && #[trigger] self.root@[i] == q;
                    if i < n - 1 {
                        assert(self.roots_upto(n - 1).contains(q));
                    }
                }
                if self.roots_upto(n - 1).contains(q) {
                    let i = choose|i: int| 0 <= i < n - 1 && #[trigger] self.root@[i] == q;
                    assert(self.root@[i] == q);
                }
                if q == r {
                    assert(self.root@[n - 1] == q);
                }
            }
            assert(self.roots_upto(n) =~= self.roots_upto(n - 1).insert(r));
        }
    }

    /// A sound forest has finitely many sets.
    pub proof fn lemma_roots_finite(&self)
        requires
            self.inv(),
        ensures
            self.spec_roots().finite(),
    {
        self.lemma_roots_upto_finite(self.root@.len() as int);
        assert(self.spec_roots() =~= self.roots_upto(self.root@.len() as int));
    }

    /// A union that joins two sets leaves one set fewer to count: the set
    /// whose representative `loser` is no longer one.
    pub proof fn lemma_union_counts(&self, after: &Self, loser: Label)
        requires
            self.inv(),
            self.spec_roots().contains(loser),
            after.spec_roots() == self.spec_roots().remove(loser),
        ensures
            after.spec_roots().len() + 1 == self.spec_roots().len(),
    {
        self.lemma_roots_finite();
    }

    /// A forest without items.
    pub fn new() -> (f: Self)
        requires
            obeys_key_model::<T>(),
        ensures
            f.inv(),
            f.spec_len() == 0,
            forall|item: T| !f.contains(item),
            f.spec_roots() == Set::<Label>::empty(),
    {
        let f = Self {
            parents: Vec::new(),
            ranks: Vec::new(),
            labels: HashMap::new(),
            root: Ghost(Seq::empty()),
            dist: Ghost(Seq::empty()),
        };
        proof {
            assert(f.spec_roots() =~= Set::<Label>::empty());
        }
        f
    }

    /// The number of items.
    pub fn len(&self) -> (n: usize)
        ensures
            n == self.spec_len(),
    {
        self.parents.len()
    }

    /// Counts the sets.
    pub fn count_sets(&mut self) -> (count: usize)
        requires
            old(self).inv(),
        ensures
            final(self).inv(),
            final(self).spec_len() == old(self).spec_len(),
            forall|item: T| final(self).spec_find(item) == old(self).spec_find(item),
            final(self).spec_roots() == old(self).spec_roots(),
            final(self).spec_ranks() == old(self).spec_ranks(),
            count == final(self).spec_roots().len(),
    {
        broadcast use vstd::std_specs::hash::group_hash_axioms;

        let mut roots: HashSet<Label> = HashSet::new();
        let n = self.parents.len();
        let mut i: usize = 0;
        while i < n
            invariant
                i <= n,
                n == self.parents@.len(),
                self.inv(),
                self.root@ == old(self).root@,
                self.labels@ == old(self).labels@,
                self.ranks@ == old(self).ranks@,
                roots@ == Set::new(
                    |r: Label| exists|k: int| 0 <= k < i && #[trigger] self.root@[k] == r,
                ),
            decreases n - i,
        {
            let root = self.find_and_compress_path(i as u32);
            let ghost before = roots@;
            roots.insert(root);
            proof {
                assert(roots@ =~= Set::new(
                    |r: Label| exists|k: int| 0 <= k < i + 1 && #[trigger] self.root@[k] == r,
                )) by {
                    assert forall|r: Label| roots@.contains(r) <==> (exists|k: int|
                        0 <= k < i + 1 && #[trigger] self.root@[k] == r) by {
                        if roots@.contains(r) {
                            if r == root {
                                assert(self.root@[i as int] == r);
                            } else {
                                assert(before.contains(r));
                                let k = choose|k: int| 0 <= k < i && #[trigger] self.root@[k] == r;
                                assert(self.root@[k] == r);
                            }
                        }
                        if exists|k: int| 0 <= k < i + 1 && #[trigger] self.root@[k] == r {
                            let k = choose|k: int| 0 <= k < i + 1 && #[trigger] self.root@[k] == r;
                            if k < i {
                                assert(before.contains(r));
                            }
                        }
                    }
                }
            }
            i += 1;
        }
        assert(roots@ =~= self.spec_roots());
        roots.len()
    }

    /// Makes a new set with `item` alone in it, unless there is a set for
    /// `item` already.
    pub fn make_set(&mut self, item: T)
        requires
            old(self).inv(),
            old(self).spec_len() < u32::MAX,
        ensures
            final(self).inv(),
            final(self).contains(item),
            forall|other: T| other != item ==> final(self).spec_find(other) == old(self).spec_find(other),
            forall|other: T| other != item ==> final(self).contains(other) == old(self).contains(other),
            old(self).contains(item) ==> final(self).spec_find(item) == old(self).spec_find(item)
                && final(self).spec_len() == old(self).spec_len(),
            old(self).contains(item) ==> final(self).spec_roots() == old(self).spec_roots(),
            final(self).spec_ranks() == (if old(self).contains(item) {
                old(self).spec_ranks()
            } else {
                old(self).spec_ranks().push(0)
            }),
            !old(self).contains(item) ==> final(self).spec_roots() == old(self).spec_roots().insert(
                old(self).spec_len() as Label,
            ) && !old(self).spec_roots().contains(old(self).spec_len() as Label),
            !old(self).contains(item) ==> final(self).spec_len() == old(self).spec_len() + 1
                && final(self).spec_find(item) == Some(old(self).spec_len() as Label)
                && forall|other: T|
                other != item ==> final(self).spec_find(other) != final(self).spec_find(item),
    {
        broadcast use vstd::std_specs::hash::group_hash_axioms;

        if self.labels.contains_key(&item) {
            return ;
        }
        let label = self.ranks.len() as Label;
        self.labels.insert(item, label);
        self.parents.push(label);
        self.ranks.push(0);
        proof {
            self.root@ = self.root@.push(label as int);
            self.dist@ = self.dist@.push(0);
            let n = self.parents@.len() as int;
            assert forall|it: T| self.labels@.contains_key(it) implies (#[trigger] self.labels@[it])
                < n by {
                if it != item {
                    assert(old(self).labels@.contains_key(it));
                }
            }
            assert forall|i: int| 0 <= i < n implies 0 <= #[trigger] self.root@[i] < n
                && self.parents@[self.root@[i]] == self.root@[i] && self.root@[self.root@[i]]
                == self.root@[i] by {
                if i < n - 1 {
                    assert(self.root@[i] == old(self).root@[i]);
                    assert(self.parents@[old(self).root@[i]] == old(self).parents@[old(self).root@[i]]);
                }
            }
            assert forall|i: int| 0 <= i < n implies (#[trigger] self.parents@[i]) < n && (
            self.parents@[i] != i ==> self.root@[self.parents@[i] as int] == self.root@[i]
                && self.dist@[self.parents@[i] as int] < self.dist@[i]) && (self.parents@[i] == i
                ==> self.root@[i] == i) by {
                if i < n - 1 {
                    assert(self.parents@[i] == old(self).parents@[i]);
                }
            }
            assert forall|other: T| other != item implies self.spec_find(other) == old(self).spec_find(other) && self.spec_find(other) != self.spec_find(item) by {
                if old(self).labels@.contains_key(other) {
                    let l = old(self).labels@[other] as int;
                    assert(self.root@[l] == old(self).root@[l]);
                }
            }
            assert forall|r: Label| self.spec_roots().contains(r) == old(self).spec_roots().insert(
                label,
            ).contains(r) by {
                if self.spec_roots().contains(r) {
                    let i = choose|i: int| 0 <= i < self.root@.len() && #[trigger] self.root@[i] == r;
                    if i < n - 1 {
                        assert(old(self).root@[i] == r);
                    }
                }
                if old(self).spec_roots().contains(r) {
                    let i = choose|i: int|
                        0 <= i < old(self).root@.len() && #[trigger] old(self).root@[i] == r;
                    assert(self.root@[i] == r);
                }
                if r == label {
                    assert(self.root@[n - 1] == r);
                }
            }
            assert(self.spec_roots() =~= old(self).spec_roots().insert(label));
            if old(self).spec_roots().contains(label) {
                let i = choose|i: int|
                    0 <= i < old(self).root@.len() && #[trigger] old(self).root@[i] == label;
                assert(0 <= old(self).root@[i] < old(self).root@.len());
            }
        }
    }

    /// Finds the representative of the set that `item` belongs to; `None`
    /// if no set was made for `item`. The sets stay as they are.
    pub fn find_set(&mut self, item: &T) -> (r: Option<Label>)
        requires
            old(self).inv(),
        ensures
            final(self).inv(),
            r == old(self).spec_find(*item),
            r is Some <==> old(self).contains(*item),
            final(self).spec_len() == old(self).spec_len(),
            forall|other: T| final(self).spec_find(other) == old(self).spec_find(other),
            forall|other: T| final(self).contains(other) == old(self).contains(other),
            final(self).spec_roots() == old(self).spec_roots(),
            final(self).spec_ranks() == old(self).spec_ranks(),
    {
        broadcast use vstd::std_specs::hash::group_hash_axioms;

        let found: Option<Label> = match self.labels.get(item) {
            Some(l) => Some(*l),
            None => None,
        };
        match found {
            Some(label) => Some(self.find_and_compress_path(label)),
            None => None,
        }
    }

    /// Finds the representative of `label` and hangs every label on the
    /// way directly below it.
    fn find_and_compress_path(&mut self, label: Label) -> (r: Label)
        requires
            old(self).inv(),
            label < old(self).parents@.len(),
        ensures
            final(self).inv(),
            r == old(self).root@[label as int],
            final(self).root@ == old(self).root@,
            final(self).labels@ == old(self).labels@,
            final(self).parents@.len() == old(self).parents@.len(),
            final(self).ranks@ == old(self).ranks@,
    {
        let mut path_visited: Vec<Label> = Vec::new();
        let mut cur = label;
        loop
            invariant_except_break
                self.inv(),
                *self == *old(self),
                cur < self.parents@.len(),
                self.root@[cur as int] == self.root@[label as int],
                forall|k: int|
                    0 <= k < path_visited@.len() ==> (#[trigger] path_visited@[k])
                        < self.parents@.len() && self.root@[path_visited@[k] as int]
                        == self.root@[label as int] && self.parents@[path_visited@[k] as int]
                        != path_visited@[k],
            ensures
                self.inv(),
                *self == *old(self),
                cur == self.root@[label as int],
                forall|k: int|
                    0 <= k < path_visited@.len() ==> (#[trigger] path_visited@[k])
                        < self.parents@.len() && self.root@[path_visited@[k] as int]
                        == self.root@[label as int] && self.parents@[path_visited@[k] as int]
                        != path_visited@[k],
            decreases self.dist@[cur as int],
        {
            let parent = self.parents[cur as usize];
            if parent == cur {
                break ;
            }
            path_visited.push(cur);
            cur = parent;
        }
        let n = path_visited.len();
        let mut k: usize = 0;
        while k < n
            invariant
                k <= n,
                n == path_visited@.len(),
                self.inv(),
                self.root@ == old(self).root@,
                self.dist@ == old(self).dist@,
                self.labels@ == old(self).labels@,
                self.ranks@ == old(self).ranks@,
                self.parents@.len() == old(self).parents@.len(),
                cur == self.root@[label as int],
                forall|j: int|
                    0 <= j < path_visited@.len() ==> (#[trigger] path_visited@[j])
                        < self.parents@.len() && self.root@[path_visited@[j] as int]
                        == self.root@[label as int] && path_visited@[j] != cur,
            decreases n - k,
        {
            let visited = path_visited[k];
            let ghost before = *self;
            self.parents.set(visited as usize, cur);
            proof {
                let m = self.parents@.len() as int;
                assert(self.dist@[cur as int] < self.dist@[visited as int]) by {
                    lemma_root_is_lowest(
                        before.parents@,
                        before.root@,
                        before.dist@,
                        visited as int,
                    );
                }
                assert forall|i: int| 0 <= i < m implies 0 <= #[trigger] self.root@[i] < m
                    && self.parents@[self.root@[i]] == self.root@[i] && self.root@[self.root@[i]]
                    == self.root@[i] by {
                    assert(before.parents@[before.root@[i]] == before.root@[i]);
                    assert(before.root@[visited as int] == cur);
                }
                assert forall|i: int| 0 <= i < m implies (#[trigger] self.parents@[i]) < m && (
                self.parents@[i] != i ==> self.root@[self.parents@[i] as int] == self.root@[i]
                    && self.dist@[self.parents@[i] as int] < self.dist@[i]) && (self.parents@[i]
                    == i ==> self.root@[i] == i) by {
                    if i != visited {
                        assert(self.parents@[i] == before.parents@[i]);
                    }
                }
            }
            k += 1;
        }
        cur
    }

    /// Of two representatives the one that a union keeps: the one of
    /// higher rank, and of two of one rank the second.
    pub open spec fn spec_winner(&self, first: Label, second: Label) -> Label {
        if first != second && self.spec_ranks()[first as int] > self.spec_ranks()[second as int] {
            first
        } else {
            second
        }
    }

    /// The ranks after a union of the sets of two representatives: where
    /// two different ones have one rank, that of the second goes up by
    /// one, unless it is 255 already.
    pub open spec fn spec_raised(&self, first: Label, second: Label) -> Seq<u8> {
        if first != second && self.spec_ranks()[first as int] == self.spec_ranks()[second as int]
            && self.spec_ranks()[second as int] < 255 {
            self.spec_ranks().update(
                second as int,
                (self.spec_ranks()[second as int] + 1) as u8,
            )
        } else {
            self.spec_ranks()
        }
    }

    /// `self` is `before` with the sets of `item1` and `item2` united
    /// under `winner`: the representative of one of the two, the one that
    /// `spec_winner` names, is that of both sets, no other set differs,
    /// and where the two sets differed the other representative is no
    /// longer one.
    pub open spec fn unites(&self, before: &Self, item1: T, item2: T, winner: Label) -> bool {
        &&& Some(winner) == before.spec_find(item1) || Some(winner) == before.spec_find(item2)
        &&& winner == before.spec_winner(before.spec_find(item1)->0, before.spec_find(item2)->0)
        &&& self.spec_ranks() == before.spec_raised(
            before.spec_find(item1)->0,
            before.spec_find(item2)->0,
        )
        &&& before.spec_find(item1) != before.spec_find(item2) ==> self.spec_roots()
            == before.spec_roots().remove(
            if Some(winner) == before.spec_find(item1) {
                before.spec_find(item2)->0
            } else {
                before.spec_find(item1)->0
            },
        ) && before.spec_roots().contains(before.spec_find(item1)->0)
            && before.spec_roots().contains(before.spec_find(item2)->0)
        &&& forall|other: T|
            #[trigger] self.spec_find(other) == (if before.contains(other) && (before.spec_find(
                other,
            ) == before.spec_find(item1) || before.spec_find(other) == before.spec_find(item2)) {
                Some(winner)
            } else {
                before.spec_find(other)
            })
    }

    /// Unions the two sets that hold `item1` and `item2`; nothing changes
    /// if there is no set for one of them. The representative of the
    /// union is that of one of the two sets, and the other one is no
    /// representative any more: one set fewer is left, unless the two
    /// items were in one set already.
    pub fn union(&mut self, item1: &T, item2: &T)
        requires
            old(self).inv(),
        ensures
            final(self).inv(),
            final(self).spec_len() == old(self).spec_len(),
            forall|other: T| final(self).contains(other) == old(self).contains(other),
            old(self).spec_find(*item1) is None || old(self).spec_find(*item2) is None ==> forall|
                other: T,
            | final(self).spec_find(other) == old(self).spec_find(other),
            old(self).spec_find(*item1) is None || old(self).spec_find(*item2) is None || old(
                self,
            ).spec_find(*item1) == old(self).spec_find(*item2) ==> final(self).spec_roots() == old(
                self,
            ).spec_roots(),
            old(self).spec_find(*item1) is None || old(self).spec_find(*item2) is None
                ==> final(self).spec_ranks() == old(self).spec_ranks(),
            old(self).spec_find(*item1) is Some && old(self).spec_find(*item2) is Some ==> exists|
                winner: Label,
            | #[trigger] final(self).unites(old(self), *item1, *item2, winner),
    {
        let r1 = self.find_set(item1);
        let r2 = self.find_set(item2);
        match (r1, r2) {
            (Some(root1), Some(root2)) => {
                let ghost before = *self;
                self.link(root1, root2);
                proof {
                    let winner = if root1 == root2 {
                        root1
                    } else {
                        self.root@[root1 as int] as Label
                    };
                    assert(winner == root1 || winner == root2);
                    let settled = *old(self);
                    assert(before.spec_roots() == settled.spec_roots());
                    assert(before.root@[root1 as int] == root1);
                    assert(before.root@[root2 as int] == root2);
                    assert(before.spec_roots().contains(root1));
                    assert(before.spec_roots().contains(root2));
                    if root1 != root2 {
                        let loser = if winner == root1 {
                            root2
                        } else {
                            root1
                        };
                        assert forall|r: Label| self.spec_roots().contains(r)
                            == settled.spec_roots().remove(loser).contains(r) by {
                            if self.spec_roots().contains(r) {
                                let i = choose|i: int|
                                    0 <= i < self.root@.len() && #[trigger] self.root@[i] == r;
                                if before.root@[i] == root1 || before.root@[i] == root2 {
                                    assert(before.root@[winner as int] == winner);
                                } else {
                                    assert(before.root@[i] == r);
                                }
                            }
                            if settled.spec_roots().contains(r) && r != loser {
                                assert(before.spec_roots().contains(r));
                                let i = choose|i: int|
                                    0 <= i < before.root@.len() && #[trigger] before.root@[i] == r;
                                if r == winner {
                                    assert(self.root@[winner as int] == winner);
                                } else {
                                    assert(self.root@[i] == r);
                                }
                            }
                        }
                        assert(self.spec_roots() =~= settled.spec_roots().remove(loser));
                    } else {
                        assert(self.spec_roots() =~= settled.spec_roots());
                    }
                    assert forall|other: T|
                        #[trigger] self.spec_find(other) == (if old(self).contains(other) && (old(self).spec_find(other) == old(self).spec_find(*item1) || old(self).spec_find(
                            other,
                        ) == old(self).spec_find(*item2)) {
                            Some(winner)
                        } else {
                            old(self).spec_find(other)
                        }) by {
                        if before.labels@.contains_key(other) {
                            let l = before.labels@[other] as int;
                            assert(0 <= before.root@[l] < before.parents@.len());
                        }
                    }
                    assert(self.unites(old(self), *item1, *item2, winner));
                }
            },
            _ => {},
        }
    }

    /// Hangs one of two representatives below the other: the one of
    /// lower rank below the one of higher rank, and with equal ranks the
    /// first below the second, whose rank goes up.
    fn link(&mut self, x: Label, y: Label)
        requires
            old(self).inv(),
            x < old(self).parents@.len(),
            y < old(self).parents@.len(),
            old(self).root@[x as int] == x,
            old(self).root@[y as int] == y,
        ensures
            final(self).inv(),
            final(self).labels@ == old(self).labels@,
            final(self).parents@.len() == old(self).parents@.len(),
            x == y ==> final(self).root@ == old(self).root@,
            final(self).ranks@ == (if x != y && old(self).ranks@[x as int] == old(self).ranks@[y as int]
                && old(self).ranks@[y as int] < 255 {
                old(self).ranks@.update(y as int, (old(self).ranks@[y as int] + 1) as u8)
            } else {
                old(self).ranks@
            }),
            x != y ==> final(self).root@[x as int] == (if old(self).ranks@[x as int] > old(
                self,
            ).ranks@[y as int] {
                x as int
            } else {
                y as int
            }),
            x != y ==> (final(self).root@[x as int] == x || final(self).root@[x as int] == y)
                && forall|i: int|
                0 <= i < old(self).root@.len() ==> #[trigger] final(self).root@[i] == (if old(self).root@[i] == x || old(self).root@[i] == y {
                    final(self).root@[x as int]
                } else {
                    old(self).root@[i]
                }),
    {
        if x == y {
            return ;
        }
        let rx = self.ranks[x as usize];
        let ry = self.ranks[y as usize];
        let (child, top) = if rx > ry {
            (y, x)
        } else {
            (x, y)
        };
        let ghost before = *self;
        self.parents.set(child as usize, top);
        if rx == ry {
            if ry < 255 {
                self.ranks.set(y as usize, ry + 1);
            }
        }
        proof {
            let n = before.parents@.len() as int;
            let lift = before.dist@[top as int] + 1;
            self.root@ = Seq::new(
                n as nat,
                |i: int|
                    if before.root@[i] == child {
                        top as int
                    } else {
                        before.root@[i]
                    },
            );
            self.dist@ = Seq::new(
                n as nat,
                |i: int|
                    if before.root@[i] == child {
                        (before.dist@[i] + lift) as nat
                    } else {
                        before.dist@[i]
                    },
            );
            assert forall|item: T| self.labels@.contains_key(item) implies (
            #[trigger] self.labels@[item]) < n by {
                assert(before.labels@.contains_key(item));
            }
            assert forall|i: int| 0 <= i < n implies 0 <= #[trigger] self.root@[i] < n
                && self.parents@[self.root@[i]] == self.root@[i] && self.root@[self.root@[i]]
                == self.root@[i] by {
                assert(before.parents@[before.root@[i]] == before.root@[i]);
                assert(before.root@[before.root@[i]] == before.root@[i]);
            }
            assert forall|i: int| 0 <= i < n implies (#[trigger] self.parents@[i]) < n && (
            self.parents@[i] != i ==> self.root@[self.parents@[i] as int] == self.root@[i]
                && self.dist@[self.parents@[i] as int] < self.dist@[i]) && (self.parents@[i] == i
                ==> self.root@[i] == i) by {
                if i != child {
                    assert(self.parents@[i] == before.parents@[i]);
                    if before.parents@[i] != i {
                        assert(before.root@[before.parents@[i] as int] == before.root@[i]);
                    }
                }
            }
        }
    }
}

/// Along `path` every position is linked with the next, one way or the
/// other.
pub open spec fn is_linked_path(yes: spec_fn(int, int) -> bool, path: Seq<int>) -> bool {
    &&& path.len() > 0
    &&& forall|k: int|
        0 <= k < path.len() - 1 ==> yes(#[trigger] path[k], path[k + 1]) || yes(
            path[k + 1],
            path[k],
        )
}

/// A chain of links leads from `a` to `b`.
pub open spec fn chained(yes: spec_fn(int, int) -> bool, a: int, b: int) -> bool {
    exists|path: Seq<int>| #[trigger] is_linked_path(yes, path) && path[0] == a && path.last() == b
}

/// Every position is chained with itself.
pub proof fn lemma_chained_self(yes: spec_fn(int, int) -> bool, a: int)
    ensures
        chained(yes, a, a),
{
    let path = seq![a];
    assert(is_linked_path(yes, path));
    assert(path[0] == a && path.last() == a);
}

/// Two linked positions are chained.
pub proof fn lemma_chained_link(yes: spec_fn(int, int) -> bool, a: int, b: int)
    requires
        yes(a, b) || yes(b, a),
    ensures
        chained(yes, a, b),
{
    let path = seq![a, b];
    assert(is_linked_path(yes, path));
    assert(path[0] == a && path.last() == b);
}

/// A chain can be walked backwards.
pub proof fn lemma_chained_sym(yes: spec_fn(int, int) -> bool, a: int, b: int)
    requires
        chained(yes, a, b),
    ensures
        chained(yes, b, a),
{
    let path = choose|path: Seq<int>|
        #[trigger] is_linked_path(yes, path) && path[0] == a && path.last() == b;
    let n = path.len() as int;
    let back = Seq::new(path.len(), |k: int| path[n - 1 - k]);
    assert forall|k: int| 0 <= k < back.len() - 1 implies yes(#[trigger] back[k], back[k + 1])
        || yes(back[k + 1], back[k]) by {
        let j = n - 2 - k;
        assert(yes(path[j], path[j + 1]) || yes(path[j + 1], path[j]));
    }
    assert(is_linked_path(yes, back));
    assert(back[0] == b && back.last() == a);
}

/// Two chains that meet make one.
pub proof fn lemma_chained_trans(yes: spec_fn(int, int) -> bool, a: int, b: int, c: int)
    requires
        chained(yes, a, b),
        chained(yes, b, c),
    ensures
        chained(yes, a, c),
{
    let first = choose|path: Seq<int>|
        #[trigger] is_linked_path(yes, path) && path[0] == a && path.last() == b;
    let second = choose|path: Seq<int>|
        #[trigger] is_linked_path(yes, path) && path[0] == b && path.last() == c;
    let head = first.drop_last();
    let whole = head + second;
    assert forall|k: int| 0 <= k < whole.len() - 1 implies yes(#[trigger] whole[k], whole[k + 1])
        || yes(whole[k + 1], whole[k]) by {
        if k + 1 < head.len() {
            assert(whole[k] == first[k] && whole[k + 1] == first[k + 1]);
            assert(yes(first[k], first[k + 1]) || yes(first[k + 1], first[k]));
        } else if k + 1 == head.len() {
            assert(whole[k] == first[k] && whole[k + 1] == second[0]);
            assert(yes(first[k], first[k + 1]) || yes(first[k + 1], first[k]));
        } else {
            let j = k - head.len();
            assert(whole[k] == second[j] && whole[k + 1] == second[j + 1]);
            assert(yes(second[j], second[j + 1]) || yes(second[j + 1], second[j]));
        }
    }
    assert(is_linked_path(yes, whole));
    assert(whole[0] == a) by {
        if head.len() > 0 {
            assert(whole[0] == first[0]);
        } else {
            assert(whole[0] == second[0]);
        }
    }
    assert(whole.last() == c);
}

/// A chain of links is a chain of any links that hold wherever the first
/// do.
pub proof fn lemma_chained_weaken(
    yes: spec_fn(int, int) -> bool,
    more: spec_fn(int, int) -> bool,
    a: int,
    b: int,
)
    requires
        chained(yes, a, b),
        forall|x: int, y: int| #[trigger] yes(x, y) ==> more(x, y),
    ensures
        chained(more, a, b),
{
    let path = choose|path: Seq<int>|
        #[trigger] is_linked_path(yes, path) && path[0] == a && path.last() == b;
    assert forall|k: int| 0 <= k < path.len() - 1 implies more(#[trigger] path[k], path[k + 1])
        || more(path[k + 1], path[k]) by {
        assert(yes(path[k], path[k + 1]) || yes(path[k + 1], path[k]));
    }
    assert(is_linked_path(more, path));
}

/// In `forests` two of the numbers below `n` share a set only if a chain
/// of links leads from one to the other.
pub open spec fn sets_chained(forests: &Forests<usize>, yes: spec_fn(int, int) -> bool, n: int) -> bool {
    forall|a: int, b: int|
        0 <= a < n && 0 <= b < n && forests.spec_find(a as usize) == forests.spec_find(b as usize)
            ==> #[trigger] chained(yes, a, b)
}

/// Uniting the sets of two linked numbers keeps the sets chained.
proof fn lemma_union_chained(
    after: &Forests<usize>,
    before: &Forests<usize>,
    yes: spec_fn(int, int) -> bool,
    n: int,
    i: usize,
    j: usize,
    winner: Label,
)
    requires
        sets_chained(before, yes, n),
        forall|t: usize| before.contains(t) <==> t < n,
        i < n,
        j < n,
        yes(i as int, j as int),
        after.unites(before, i, j, winner),
    ensures
        sets_chained(after, yes, n),
{
    lemma_chained_link(yes, i as int, j as int);
    lemma_chained_sym(yes, i as int, j as int);
    assert forall|a: int, b: int|
        0 <= a < n && 0 <= b < n && after.spec_find(a as usize) == after.spec_find(
            b as usize,
        ) implies #[trigger] chained(yes, a, b) by {
        let fa = before.spec_find(a as usize);
        let fb = before.spec_find(b as usize);
        let fi = before.spec_find(i);
        let fj = before.spec_find(j);
        assert(before.contains(a as usize) && before.contains(b as usize));
        let a_in = fa == fi || fa == fj;
        let b_in = fb == fi || fb == fj;
        if a_in && b_in {
            // a to its end of the link, across if needed, and on to b
            let ea = if fa == fi {
                i as int
            } else {
                j as int
            };
            let eb = if fb == fi {
                i as int
            } else {
                j as int
            };
            assert(chained(yes, a, ea));
            assert(chained(yes, eb, b));
            if ea == eb {
                lemma_chained_trans(yes, a, ea, b);
            } else {
                assert(chained(yes, ea, eb));
                lemma_chained_trans(yes, a, ea, eb);
                lemma_chained_trans(yes, a, eb, b);
            }
        } else if !a_in && !b_in {
            assert(fa == fb);
        } else {
            assert(fa == fb);
        }
    }
}

/// `groups` is a grouping of `items`: `pos` names, for every place in
/// every group, the position in `items` of the item that stands there;
/// every position is named once; the positions in a group descend; and
/// the groups come in descending order of their first positions.
pub open spec fn is_grouping<T>(items: Seq<T>, groups: Seq<Vec<T>>, pos: Seq<Seq<int>>) -> bool {
    &&& pos.len() == groups.len()
    &&& forall|g: int, h: int| 0 <= g < h < groups.len() ==> pos[g][0] > pos[h][0]
    &&& forall|g: int|
        0 <= g < groups.len() ==> (#[trigger] pos[g]).len() == groups[g]@.len() && pos[g].len() > 0
    &&& forall|g: int, k: int|
        0 <= g < groups.len() && 0 <= k < pos[g].len() ==> 0 <= #[trigger] pos[g][k] < items.len()
            && groups[g]@[k] == items[pos[g][k]]
    &&& forall|g: int, k: int, j: int|
        0 <= g < groups.len() && 0 <= k < j < pos[g].len() ==> pos[g][k] > pos[g][j]
    &&& forall|g: int, h: int, k: int, j: int|
        0 <= g < h < groups.len() && 0 <= k < pos[g].len() && 0 <= j < pos[h].len() ==> pos[g][k]
            != pos[h][j]
    &&& forall|i: int| 0 <= i < items.len() ==> #[trigger] is_placed(pos, i)
}

/// Some place in some group holds the item of position `i`.
pub open spec fn is_placed(pos: Seq<Seq<int>>, i: int) -> bool {
    exists|g: int, k: int| 0 <= g < pos.len() && 0 <= k < pos[g].len() && #[trigger] pos[g][k] == i
}

/// One group holds the items of the positions `i` and `j`.
pub open spec fn in_one_group(pos: Seq<Seq<int>>, i: int, j: int) -> bool {
    exists|g: int, k: int, l: int|
        0 <= g < pos.len() && 0 <= k < pos[g].len() && 0 <= l < pos[g].len()
            && #[trigger] pos[g][k] == i && #[trigger] pos[g][l] == j
}

/// The link between two positions of `items` that `should_group` may
/// say yes of.
pub open spec fn may_group<T, F: Fn(&T, &T) -> bool>(items: Seq<T>, should_group: F) -> spec_fn(
    int,
    int,
) -> bool {
    |a: int, b: int|
        0 <= a < items.len() && 0 <= b < items.len() && call_ensures(
            should_group,
            (&items[a], &items[b]),
            true,
        )
}

/// The link between two positions of `items` of whose keys, as
/// `extract_key` may give them, `should_group` may say yes.
pub open spec fn may_group_by_key<T, Key, Extract: Fn(&T) -> Key, Group: Fn(&Key, &Key) -> bool>(
    items: Seq<T>,
    extract_key: Extract,
    should_group: Group,
) -> spec_fn(int, int) -> bool {
    |a: int, b: int|
        0 <= a < items.len() && 0 <= b < items.len() && exists|ka: Key, kb: Key|
            call_ensures(extract_key, (&items[a],), ka) && call_ensures(
                extract_key,
                (&items[b],),
                kb,
            ) && #[trigger] call_ensures(should_group, (&ka, &kb), true)
}

/// The link between two positions whose rects touch or overlap.
pub open spec fn may_hit(keys: Seq<crate::bound::BoundingRect>) -> spec_fn(int, int) -> bool {
    |a: int, b: int| 0 <= a < keys.len() && 0 <= b < keys.len() && keys[a].spec_hit(keys[b])
}

/// In a forest where every number below `n` is alone in its set, the
/// sets are chained.
proof fn lemma_alone_chained(forests: &Forests<usize>, yes: spec_fn(int, int) -> bool, n: int)
    requires
        n <= usize::MAX,
        forall|a: usize, b: usize|
            a < n && b < n && #[trigger] forests.spec_find(a) == #[trigger] forests.spec_find(b)
                ==> a == b,
    ensures
        sets_chained(forests, yes, n),
{
    assert forall|a: int, b: int|
        0 <= a < n && 0 <= b < n && forests.spec_find(a as usize) == forests.spec_find(
            b as usize,
        ) implies #[trigger] chained(yes, a, b) by {
        assert(a as usize == b as usize);
        lemma_chained_self(yes, a);
    }
}

/// Where the sets are chained, the items of one group are.
proof fn lemma_groups_chained<T>(
    forests: &Forests<usize>,
    yes: spec_fn(int, int) -> bool,
    items: Seq<T>,
    groups: Seq<Vec<T>>,
    pos: Seq<Seq<int>>,
)
    requires
        sets_chained(forests, yes, items.len() as int),
        is_grouping(items, groups, pos),
        forall|g: int, k: int, l: int|
            0 <= g < pos.len() && 0 <= k < pos[g].len() && 0 <= l < pos[g].len()
                ==> forests.spec_find(#[trigger] pos[g][k] as usize) == forests.spec_find(
                #[trigger] pos[g][l] as usize,
            ),
    ensures
        forall|i: int, j: int| #[trigger] in_one_group(pos, i, j) ==> chained(yes, i, j),
{
    assert forall|i: int, j: int| #[trigger] in_one_group(pos, i, j) implies chained(yes, i, j) by {
        let (g, k, l) = choose|g: int, k: int, l: int|
            0 <= g < pos.len() && 0 <= k < pos[g].len() && 0 <= l < pos[g].len()
                && #[trigger] pos[g][k] == i && #[trigger] pos[g][l] == j;
        assert(0 <= pos[g][k] < items.len());
        assert(0 <= pos[g][l] < items.len());
        assert(forests.spec_find(pos[g][k] as usize) == forests.spec_find(pos[g][l] as usize));
    }
}

/// Groups items by a test of whether two of them belong together.
///
/// Every item is put in one group. The groups and the items in each come
/// in the reverse of the order of the items. Two items for which the test
/// can only say yes are in one group, and any two items of a group are
/// joined by a chain of items of which the test may say yes.
pub fn group_by<T, F>(items: Vec<T>, should_group: F) -> (groups: Vec<Vec<T>>) where
    F: Fn(&T, &T) -> bool,

    requires
        items@.len() < u32::MAX,
        forall|a: &T, b: &T| call_requires(should_group, (a, b)),
    ensures
        exists|pos: Seq<Seq<int>>|
            is_grouping(items@, groups@, pos) && (forall|i: int, j: int|
                0 <= i < j < items@.len() && (forall|r: bool|
                    call_ensures(should_group, (&items@[i], &items@[j]), r) ==> r)
                    ==> #[trigger] in_one_group(pos, i, j)) && (forall|i: int, j: int|
                #[trigger] in_one_group(pos, i, j) ==> chained(
                    may_group(items@, should_group),
                    i,
                    j,
                )),
{
    broadcast use vstd::std_specs::hash::group_hash_axioms;

    let ghost all = items@;
    let ghost yes = may_group(all, should_group);
    let n = items.len();
    let mut forests = number_forest(n);
    proof {
        lemma_alone_chained(&forests, yes, n as int);
    }
    let mut i: usize = 0;
    while i < n
        invariant
            i <= n,
            n == items@.len(),
            items@ == all,
            forests.inv(),
            sets_chained(&forests, yes, n as int),
            yes == may_group(all, should_group),
            forall|t: usize| forests.contains(t) <==> t < n,
            forall|a: &T, b: &T| call_requires(should_group, (a, b)),
            forall|a: int, b: int|
                0 <= a < i && a < b < n && (forall|r: bool|
                    call_ensures(should_group, (&all[a], &all[b]), r) ==> r)
                    ==> #[trigger] forests.spec_find(a as usize) == #[trigger] forests.spec_find(
                    b as usize,
                ),
        decreases n - i,
    {
        let mut j: usize = i + 1;
        while j < n
            invariant
                i < n,
                i + 1 <= j <= n,
                n == items@.len(),
                items@ == all,
                forests.inv(),
                sets_chained(&forests, yes, n as int),
            yes == may_group(all, should_group),
                forall|t: usize| forests.contains(t) <==> t < n,
                forall|a: &T, b: &T| call_requires(should_group, (a, b)),
                forall|a: int, b: int|
                    0 <= a < n && a < b < n && (a < i || (a == i && b < j)) && (forall|r: bool|
                        call_ensures(should_group, (&all[a], &all[b]), r) ==> r)
                        ==> #[trigger] forests.spec_find(a as usize) == #[trigger] forests.spec_find(
                        b as usize,
                    ),
            decreases n - j,
        {
            let ghost before = forests;
            let together = should_group(&items[i], &items[j]);
            if together {
                forests.union(&i, &j);
            }
            proof {
                if together {
                    assert(before.contains(i) && before.contains(j));
                    assert(before.spec_find(i) is Some && before.spec_find(j) is Some);
                    let winner = choose|w: Label| #[trigger] forests.unites(&before, i, j, w);
                    lemma_union_chained(&forests, &before, yes, n as int, i, j, winner);
                }
                assert forall|a: int, b: int|
                    0 <= a < n && a < b < n && (a < i || (a == i && b < j + 1)) && (forall|r: bool|
                        call_ensures(should_group, (&all[a], &all[b]), r)
                            ==> r) implies #[trigger] forests.spec_find(a as usize)
                    == #[trigger] forests.spec_find(b as usize) by {
                    if a == i && b == j {
                        assert(together);
                    } else {
                        assert(before.spec_find(a as usize) == before.spec_find(b as usize));
                    }
                    if together {
                        assert(before.contains(a as usize) && before.contains(b as usize));
                    }
                }
            }
            j += 1;
        }
        i += 1;
    }
    let ghost settled = forests;
    let (groups, Ghost(pos)) = collect_groups(items, &mut forests);
    proof {
        assert forall|i: int, j: int|
            0 <= i < j < all.len() && (forall|r: bool|
                call_ensures(should_group, (&all[i], &all[j]), r)
                    ==> r) implies #[trigger] in_one_group(pos, i, j) by {
            assert(settled.spec_find(i as usize) == settled.spec_find(j as usize));
        }
        lemma_groups_chained(&settled, yes, all, groups@, pos);
    }
    groups
}

/// A forest with a set of its own for each of the numbers below `n`.
fn number_forest(n: usize) -> (forests: Forests<usize>)
    requires
        n < u32::MAX,
    ensures
        forests.inv(),
        forall|t: usize| forests.contains(t) <==> t < n,
        forall|a: usize, b: usize|
            a < n && b < n && #[trigger] forests.spec_find(a) == #[trigger] forests.spec_find(b)
                ==> a == b,
{
    broadcast use vstd::std_specs::hash::group_hash_axioms;

    let mut forests: Forests<usize> = Forests::new();
    let mut i: usize = 0;
    while i < n
        invariant
            i <= n,
            n < u32::MAX,
            forests.inv(),
            forests.spec_len() == i,
            forall|t: usize| forests.contains(t) <==> t < i,
            forall|a: usize, b: usize|
                a < i && b < i && #[trigger] forests.spec_find(a) == #[trigger] forests.spec_find(b)
                    ==> a == b,
        decreases n - i,
    {
        let ghost before = forests;
        forests.make_set(i);
        proof {
            assert forall|a: usize, b: usize|
                a < i + 1 && b < i + 1 && #[trigger] forests.spec_find(a)
                    == #[trigger] forests.spec_find(b) implies a == b by {
                if a != i && b != i {
                    assert(before.spec_find(a) == before.spec_find(b));
                }
            }
        }
        i += 1;
    }
    forests
}

/// Puts the items into groups by the sets of their positions, taking the
/// items from the last to the first.
fn collect_groups<T>(items: Vec<T>, forests: &mut Forests<usize>) -> (r: (
    Vec<Vec<T>>,
    Ghost<Seq<Seq<int>>>,
))
    requires
        old(forests).inv(),
        forall|t: usize| old(forests).contains(t) <==> t < items@.len(),
    ensures
        is_grouping(items@, r.0@, r.1@),
        forall|i: int, j: int|
            0 <= i < items@.len() && 0 <= j < items@.len() && old(forests).spec_find(i as usize)
                == old(forests).spec_find(j as usize) ==> #[trigger] in_one_group(r.1@, i, j),
        forall|g: int, k: int, l: int|
            0 <= g < r.1@.len() && 0 <= k < r.1@[g].len() && 0 <= l < r.1@[g].len() ==> old(
                forests,
            ).spec_find(#[trigger] r.1@[g][k] as usize) == old(forests).spec_find(
                #[trigger] r.1@[g][l] as usize,
            ),
{
    broadcast use vstd::std_specs::hash::group_hash_axioms;

    let mut items = items;
    let ghost all = items@;
    let n = items.len();
    let mut group_index: HashMap<Label, usize> = HashMap::new();
    let mut groups: Vec<Vec<T>> = Vec::new();
    let ghost mut pos: Seq<Seq<int>> = Seq::empty();
    let ghost mut label_of: Seq<Label> = Seq::empty();
    let ghost settled = *forests;
    while items.len() > 0
        invariant
            items@.len() <= n,
            n == all.len(),
            items@ == all.subrange(0, items@.len() as int),
            forests.inv(),
            forall|t: usize| forests.contains(t) <==> t < n,
            forall|t: usize| forests.spec_find(t) == settled.spec_find(t),
            pos.len() == groups@.len(),
            label_of.len() == groups@.len(),
            forall|g: int|
                0 <= g < groups@.len() ==> (#[trigger] pos[g]).len() == groups@[g]@.len()
                    && pos[g].len() > 0,
            forall|g: int, k: int|
                0 <= g < groups@.len() && 0 <= k < pos[g].len() ==> items@.len()
                    <= #[trigger] pos[g][k] < n && groups@[g]@[k] == all[pos[g][k]]
                    && settled.spec_find(pos[g][k] as usize) == Some(label_of[g]),
            forall|g: int, k: int, j: int|
                0 <= g < groups@.len() && 0 <= k < j < pos[g].len() ==> pos[g][k] > pos[g][j],
            forall|g: int, h: int| 0 <= g < h < groups@.len() ==> label_of[g] != label_of[h],
            forall|g: int, h: int| 0 <= g < h < groups@.len() ==> pos[g][0] > pos[h][0],
            forall|g: int|
                0 <= g < groups@.len() ==> group_index@.contains_key(#[trigger] label_of[g])
                    && group_index@[label_of[g]] == g,
            forall|l: Label|
                group_index@.contains_key(l) ==> 0 <= #[trigger] group_index@[l] < groups@.len()
                    && label_of[group_index@[l] as int] == l,
            forall|i: int| items@.len() <= i < n ==> #[trigger] is_placed(pos, i),
        decreases items@.len(),
    {
        let ghost prior_pos = pos;
        let ghost prior_groups = groups@;
        let ghost prior_labels = label_of;
        let ghost prior_len = items@.len();
        let item = items.pop().unwrap();
        let index = items.len();
        assert(item == all[index as int]);
        let label = forests.find_set(&index).unwrap();
        let found: Option<usize> = match group_index.get(&label) {
            Some(g) => Some(*g),
            None => None,
        };
        match found {
            Some(g) => {
                groups[g].push(item);
                proof {
                    pos = pos.update(g as int, pos[g as int].push(index as int));
                }
            },
            None => {
                group_index.insert(label, groups.len());
                let mut group: Vec<T> = Vec::new();
                group.push(item);
                groups.push(group);
                proof {
                    pos = pos.push(seq![index as int]);
                    label_of = label_of.push(label);
                }
            },
        }
        proof {
            assert(items@ =~= all.subrange(0, items@.len() as int));
            assert forall|g: int, k: int|
                0 <= g < groups@.len() && 0 <= k < pos[g].len() implies items@.len()
                <= #[trigger] pos[g][k] < n && groups@[g]@[k] == all[pos[g][k]]
                && settled.spec_find(pos[g][k] as usize) == Some(label_of[g]) by {
                match found {
                    Some(f) => {
                        if g == f {
                            if k < prior_pos[g].len() {
                                assert(pos[g][k] == prior_pos[g][k]);
                                assert(groups@[g]@[k] == prior_groups[g]@[k]);
                            }
                        } else {
                            assert(pos[g] == prior_pos[g]);
                            assert(groups@[g] == prior_groups[g]);
                            assert(prior_len <= prior_pos[g][k]);
                        }
                    },
                    None => {
                        if g < prior_pos.len() {
                            assert(pos[g] == prior_pos[g]);
                            assert(groups@[g] == prior_groups[g]);
                            assert(prior_len <= prior_pos[g][k]);
                            assert(label_of[g] == prior_labels[g]);
                        }
                    },
                }
            }
            assert forall|g: int, k: int, j: int|
                0 <= g < groups@.len() && 0 <= k < j < pos[g].len() implies pos[g][k] > pos[g][j] by {
                match found {
                    Some(f) => {
                        if g == f {
                            if j < prior_pos[g].len() {
                                assert(prior_pos[g][k] > prior_pos[g][j]);
                            } else {
                                assert(prior_len <= prior_pos[g][k]);
                            }
                        } else {
                            assert(prior_pos[g][k] > prior_pos[g][j]);
                        }
                    },
                    None => {
                        if g < prior_pos.len() {
                            assert(prior_pos[g][k] > prior_pos[g][j]);
                        }
                    },
                }
            }
            assert forall|g: int, h: int| 0 <= g < h < groups@.len() implies label_of[g]
                != label_of[h] by {
                if h < prior_labels.len() {
                    assert(prior_labels[g] != prior_labels[h]);
                }
            }
            assert forall|g: int, h: int| 0 <= g < h < groups@.len() implies pos[g][0]
                > pos[h][0] by {
                assert(pos[g][0] == prior_pos[g][0]);
                assert(prior_len <= prior_pos[g][0]);
                if h < prior_pos.len() {
                    assert(pos[h][0] == prior_pos[h][0]);
                    assert(prior_pos[g][0] > prior_pos[h][0]);
                }
            }
            assert forall|i: int| items@.len() <= i < n implies #[trigger] is_placed(pos, i) by {
                if i == index {
                    match found {
                        Some(g) => {
                            assert(pos[g as int][pos[g as int].len() - 1] == i);
                        },
                        None => {
                            assert(pos[groups@.len() - 1][0] == i);
                        },
                    }
                } else {
                    assert(is_placed(prior_pos, i));
                    let (g, k) = choose|g: int, k: int|
                        0 <= g < prior_pos.len() && 0 <= k < prior_pos[g].len()
                            && #[trigger] prior_pos[g][k] == i;
                    assert(pos[g][k] == i);
                }
            }
        }
    }
    proof {
        assert(is_grouping(all, groups@, pos)) by {
            assert forall|g: int, h: int, k: int, j: int|
                0 <= g < h < groups@.len() && 0 <= k < pos[g].len() && 0 <= j
                    < pos[h].len() implies pos[g][k] != pos[h][j] by {
                assert(settled.spec_find(pos[g][k] as usize) == Some(label_of[g]));
                assert(settled.spec_find(pos[h][j] as usize) == Some(label_of[h]));
            }
        }
        assert forall|i: int, j: int|
            0 <= i < all.len() && 0 <= j < all.len() && settled.spec_find(i as usize)
                == settled.spec_find(j as usize) implies #[trigger] in_one_group(pos, i, j) by {
            assert(is_placed(pos, i));
            assert(is_placed(pos, j));
            let (g, k) = choose|g: int, k: int|
                0 <= g < pos.len() && 0 <= k < pos[g].len() && #[trigger] pos[g][k] == i;
            let (h, l) = choose|h: int, l: int|
                0 <= h < pos.len() && 0 <= l < pos[h].len() && #[trigger] pos[h][l] == j;
            assert(settled.spec_find(pos[g][k] as usize) == Some(label_of[g]));
            assert(settled.spec_find(pos[h][l] as usize) == Some(label_of[h]));
            if g < h {
                assert(label_of[g] != label_of[h]);
            } else if h < g {
                assert(label_of[h] != label_of[g]);
            }
            assert(pos[g][k] == i && pos[g][l] == j);
        }
        assert forall|g: int, k: int, l: int|
            0 <= g < pos.len() && 0 <= k < pos[g].len() && 0 <= l < pos[g].len() implies settled.spec_find(
            #[trigger] pos[g][k] as usize,
        ) == settled.spec_find(#[trigger] pos[g][l] as usize) by {
            assert(settled.spec_find(pos[g][k] as usize) == Some(label_of[g]));
            assert(settled.spec_find(pos[g][l] as usize) == Some(label_of[g]));
        }
    }
    (groups, Ghost(pos))
}

/// Groups items by a key taken from each item once and a test of whether
/// two keys belong together.
///
/// Every item is put in one group. The groups and the items in each come
/// in the reverse of the order of the items. Two items are in one group
/// if the test can only say yes of any keys that they may have, and any
/// two items of a group are joined by a chain of items of whose keys the
/// test may say yes.
pub fn group_by_cached_key<T, Key, Extract, Group>(
    items: Vec<T>,
    extract_key: Extract,
    should_group: Group,
) -> (groups: Vec<Vec<T>>) where Extract: Fn(&T) -> Key, Group: Fn(&Key, &Key) -> bool
    requires
        items@.len() < u32::MAX,
        forall|a: &T| call_requires(extract_key, (a,)),
        forall|a: &Key, b: &Key| call_requires(should_group, (a, b)),
    ensures
        exists|pos: Seq<Seq<int>>|
            is_grouping(items@, groups@, pos) && (forall|i: int, j: int|
                0 <= i < j < items@.len() && (forall|ki: Key, kj: Key, r: bool|
                    call_ensures(extract_key, (&items@[i],), ki) && call_ensures(
                        extract_key,
                        (&items@[j],),
                        kj,
                    ) && call_ensures(should_group, (&ki, &kj), r) ==> r)
                    ==> #[trigger] in_one_group(pos, i, j)) && (forall|i: int, j: int|
                #[trigger] in_one_group(pos, i, j) ==> chained(
                    may_group_by_key(items@, extract_key, should_group),
                    i,
                    j,
                )),
{
    broadcast use vstd::std_specs::hash::group_hash_axioms;

    let ghost all = items@;
    let n = items.len();
    let mut keys: Vec<Key> = Vec::new();
    let mut t: usize = 0;
    while t < n
        invariant
            t <= n,
            n == items@.len(),
            keys@.len() == t,
            forall|a: &T| call_requires(extract_key, (a,)),
            forall|k: int|
                0 <= k < t ==> call_ensures(extract_key, (&items@[k],), #[trigger] keys@[k]),
        decreases n - t,
    {
        let key = extract_key(&items[t]);
        keys.push(key);
        t += 1;
    }
    let ghost yes = may_group(keys@, should_group);
    let mut forests = number_forest(n);
    proof {
        lemma_alone_chained(&forests, yes, n as int);
    }
    let mut i: usize = 0;
    while i < n
        invariant
            i <= n,
            n == items@.len(),
            n == keys@.len(),
            forests.inv(),
            sets_chained(&forests, yes, n as int),
            yes == may_group(keys@, should_group),
            forall|t: usize| forests.contains(t) <==> t < n,
            forall|a: &Key, b: &Key| call_requires(should_group, (a, b)),
            forall|a: int, b: int|
                0 <= a < i && a < b < n && (forall|r: bool|
                    call_ensures(should_group, (&keys@[a], &keys@[b]), r) ==> r)
                    ==> #[trigger] forests.spec_find(a as usize) == #[trigger] forests.spec_find(
                    b as usize,
                ),
        decreases n - i,
    {
        let mut j: usize = i + 1;
        while j < n
            invariant
                i < n,
                i + 1 <= j <= n,
                n == items@.len(),
                n == keys@.len(),
                forests.inv(),
                sets_chained(&forests, yes, n as int),
                yes == may_group(keys@, should_group),
                forall|t: usize| forests.contains(t) <==> t < n,
                forall|a: &Key, b: &Key| call_requires(should_group, (a, b)),
                forall|a: int, b: int|
                    0 <= a < n && a < b < n && (a < i || (a == i && b < j)) && (forall|r: bool|
                        call_ensures(should_group, (&keys@[a], &keys@[b]), r) ==> r)
                        ==> #[trigger] forests.spec_find(a as usize) == #[trigger] forests.spec_find(
                        b as usize,
                    ),
            decreases n - j,
        {
            let ghost before = forests;
            let together = should_group(&keys[i], &keys[j]);
            if together {
                forests.union(&i, &j);
            }
            proof {
                if together {
                    assert(before.contains(i) && before.contains(j));
                    assert(before.spec_find(i) is Some && before.spec_find(j) is Some);
                    let winner = choose|w: Label| #[trigger] forests.unites(&before, i, j, w);
                    lemma_union_chained(&forests, &before, yes, n as int, i, j, winner);
                }
                assert forall|a: int, b: int|
                    0 <= a < n && a < b < n && (a < i || (a == i && b < j + 1)) && (forall|r: bool|
                        call_ensures(should_group, (&keys@[a], &keys@[b]), r)
                            ==> r) implies #[trigger] forests.spec_find(a as usize)
                    == #[trigger] forests.spec_find(b as usize) by {
                    if a == i && b == j {
                        assert(together);
                    } else {
                        assert(before.spec_find(a as usize) == before.spec_find(b as usize));
                    }
                    if together {
                        assert(before.contains(a as usize) && before.contains(b as usize));
                    }
                }
            }
            j += 1;
        }
        i += 1;
    }
    let ghost settled = forests;
    let (groups, Ghost(pos)) = collect_groups(items, &mut forests);
    proof {
        assert forall|i: int, j: int|
            0 <= i < j < all.len() && (forall|ki: Key, kj: Key, r: bool|
                call_ensures(extract_key, (&all[i],), ki) && call_ensures(
                    extract_key,
                    (&all[j],),
                    kj,
                ) && call_ensures(should_group, (&ki, &kj), r) ==> r) implies #[trigger] in_one_group(
            pos,
            i,
            j,
        ) by {
            assert forall|r: bool|
                call_ensures(should_group, (&keys@[i], &keys@[j]), r) implies r by {
                assert(call_ensures(extract_key, (&all[i],), keys@[i]));
                assert(call_ensures(extract_key, (&all[j],), keys@[j]));
            }
            assert(settled.spec_find(i as usize) == settled.spec_find(j as usize));
        }
        lemma_groups_chained(&settled, yes, all, groups@, pos);
        let more = may_group_by_key(all, extract_key, should_group);
        assert forall|x: int, y: int| #[trigger] yes(x, y) implies more(x, y) by {
            assert(call_ensures(extract_key, (&all[x],), keys@[x]));
            assert(call_ensures(extract_key, (&all[y],), keys@[y]));
            assert(call_ensures(should_group, (&keys@[x], &keys@[y]), true));
        }
        assert forall|i: int, j: int| #[trigger] in_one_group(pos, i, j) implies chained(
            more,
            i,
            j,
        ) by {
            lemma_chained_weaken(yes, more, i, j);
        }
    }
    groups
}

/// Groups items by the rects that stand for them: two items whose rects
/// touch or overlap are in one group, and any two items of a group are
/// joined by a chain of items whose rects do. The groups and the items
/// in each come in the reverse of the order of the items.
pub fn group_by_keys<T>(items: Vec<T>, keys: Vec<crate::bound::BoundingRect>) -> (groups: Vec<Vec<T>>)
    requires
        items@.len() == keys@.len(),
        items@.len() < u32::MAX,
    ensures
        exists|pos: Seq<Seq<int>>|
            is_grouping(items@, groups@, pos) && (forall|i: int, j: int|
                0 <= i < j < items@.len() && keys@[i].spec_hit(keys@[j]) ==> #[trigger] in_one_group(
                    pos,
                    i,
                    j,
                )) && (forall|i: int, j: int|
                #[trigger] in_one_group(pos, i, j) ==> chained(may_hit(keys@), i, j)),
{
    broadcast use vstd::std_specs::hash::group_hash_axioms;

    let n = items.len();
    let ghost yes = may_hit(keys@);
    let mut forests = number_forest(n);
    proof {
        lemma_alone_chained(&forests, yes, n as int);
    }
    let mut i: usize = 0;
    while i < n
        invariant
            i <= n,
            n == items@.len(),
            n == keys@.len(),
            forests.inv(),
            sets_chained(&forests, yes, n as int),
            yes == may_hit(keys@),
            forall|t: usize| forests.contains(t) <==> t < n,
            forall|a: int, b: int|
                0 <= a < i && a < b < n && keys@[a].spec_hit(keys@[b])
                    ==> #[trigger] forests.spec_find(a as usize) == #[trigger] forests.spec_find(
                    b as usize,
                ),
        decreases n - i,
    {
        let mut j: usize = i + 1;
        while j < n
            invariant
                i < n,
                i + 1 <= j <= n,
                n == items@.len(),
                n == keys@.len(),
                forests.inv(),
                sets_chained(&forests, yes, n as int),
                yes == may_hit(keys@),
                forall|t: usize| forests.contains(t) <==> t < n,
                forall|a: int, b: int|
                    0 <= a < n && a < b < n && (a < i || (a == i && b < j)) && keys@[a].spec_hit(
                        keys@[b],
                    ) ==> #[trigger] forests.spec_find(a as usize) == #[trigger] forests.spec_find(
                        b as usize,
                    ),
            decreases n - j,
        {
            let ghost before = forests;
            let together = keys[i].hit(keys[j]);
            if together {
                forests.union(&i, &j);
            }
            proof {
                if together {
                    assert(before.contains(i) && before.contains(j));
                    assert(before.spec_find(i) is Some && before.spec_find(j) is Some);
                    let winner = choose|w: Label| #[trigger] forests.unites(&before, i, j, w);
                    lemma_union_chained(&forests, &before, yes, n as int, i, j, winner);
                }
                assert forall|a: int, b: int|
                    0 <= a < n && a < b < n && (a < i || (a == i && b < j + 1))
                        && keys@[a].spec_hit(keys@[b]) implies #[trigger] forests.spec_find(
                    a as usize,
                ) == #[trigger] forests.spec_find(b as usize) by {
                    if !(a == i && b == j) {
                        assert(before.spec_find(a as usize) == before.spec_find(b as usize));
                    }
                    if together {
                        assert(before.contains(a as usize) && before.contains(b as usize));
                    }
                }
            }
            j += 1;
        }
        i += 1;
    }
    let ghost settled = forests;
    let ghost all = items@;
    let (groups, Ghost(pos)) = collect_groups(items, &mut forests);
    proof {
        assert forall|i: int, j: int|
            0 <= i < j < all.len() && keys@[i].spec_hit(keys@[j]) implies #[trigger] in_one_group(
            pos,
            i,
            j,
        ) by {
            assert(settled.spec_find(i as usize) == settled.spec_find(j as usize));
        }
        lemma_groups_chained(&settled, yes, all, groups@, pos);
    }
    groups
}

impl<T: Eq + Hash> Forests<T> {
    /// Groups the positions of `items` by the sets of the items: the
    /// groups come in the order in which their first item stands in
    /// `items`, and the positions of the items for which no set was made
    /// form one group of their own, the last.
    pub fn group_items(&mut self, items: &[T]) -> (groups: Vec<Vec<usize>>)
        requires
            old(self).inv(),
        ensures
            final(self).inv(),
            forall|item: T| final(self).spec_find(item) == old(self).spec_find(item),
            final(self).spec_ranks() == old(self).spec_ranks(),
            forall|g: int|
                0 <= g < groups@.len() ==> (#[trigger] groups@[g])@.len() > 0 && forall|
                    k: int,
                    j: int,
                |
                    0 <= k < j < groups@[g]@.len() ==> groups@[g]@[k] < groups@[g]@[j],
            forall|g: int, k: int|
                0 <= g < groups@.len() && 0 <= k < groups@[g]@.len() ==> (#[trigger] groups@[g]@[k])
                    < items@.len(),
            forall|g: int, k: int, j: int|
                0 <= g < groups@.len() && 0 <= k < groups@[g]@.len() && 0 <= j < groups@[g]@.len()
                    ==> old(self).spec_find(items@[#[trigger] groups@[g]@[k] as int]) == old(self).spec_find(items@[#[trigger] groups@[g]@[j] as int]),
            forall|g: int, h: int|
                0 <= g < h < groups@.len() ==> old(self).spec_find(
                    items@[(#[trigger] groups@[g])@[0] as int],
                ) != old(self).spec_find(items@[(#[trigger] groups@[h])@[0] as int]),
            forall|i: int|
                0 <= i < items@.len() ==> #[trigger] placed_in(groups@, Seq::<usize>::empty(), i),
    {
        let mut keys: Vec<Label> = Vec::new();
        let mut groups: Vec<Vec<usize>> = Vec::new();
        let mut not_exists: Vec<usize> = Vec::new();
        let n = items.len();
        let mut i: usize = 0;
        while i < n
            invariant
                i <= n,
                n == items@.len(),
                self.inv(),
                forall|item: T| self.spec_find(item) == old(self).spec_find(item),
                self.spec_ranks() == old(self).spec_ranks(),
                keys@.len() == groups@.len(),
                forall|g: int, h: int| 0 <= g < h < keys@.len() ==> keys@[g] != keys@[h],
                forall|g: int|
                    0 <= g < groups@.len() ==> (#[trigger] groups@[g])@.len() > 0 && forall|
                        k: int,
                        j: int,
                    |
                        0 <= k < j < groups@[g]@.len() ==> groups@[g]@[k] < groups@[g]@[j],
                forall|g: int, k: int|
                    0 <= g < groups@.len() && 0 <= k < groups@[g]@.len() ==> (
                    #[trigger] groups@[g]@[k]) < i && old(self).spec_find(
                        items@[groups@[g]@[k] as int],
                    ) == Some(keys@[g]),
                forall|k: int, j: int| 0 <= k < j < not_exists@.len() ==> not_exists@[k] < not_exists@[j],
                forall|k: int|
                    0 <= k < not_exists@.len() ==> (#[trigger] not_exists@[k]) < i && old(self).spec_find(items@[not_exists@[k] as int]) is None,
                forall|t: int|
                    0 <= t < i ==> #[trigger] placed_in(groups@, not_exists@, t),
            decreases n - i,
        {
            let ghost prior_groups = groups@;
            let ghost prior_rest = not_exists@;
            match self.find_set(&items[i]) {
                Some(root) => {
                    let mut g: usize = 0;
                    let count = keys.len();
                    while g < count && keys[g] != root
                        invariant
                            g <= count,
                            count == keys@.len(),
                            forall|h: int| 0 <= h < g ==> keys@[h] != root,
                        decreases count - g,
                    {
                        g += 1;
                    }
                    if g < count {
                        groups[g].push(i);
                        proof {
                            assert(groups@[g as int]@[groups@[g as int]@.len() - 1] == i);
                        }
                    } else {
                        keys.push(root);
                        let mut group: Vec<usize> = Vec::new();
                        group.push(i);
                        groups.push(group);
                        proof {
                            assert(groups@[groups@.len() - 1]@[0] == i);
                        }
                    }
                },
                None => {
                    not_exists.push(i);
                    proof {
                        assert(not_exists@[not_exists@.len() - 1] == i);
                    }
                },
            }
            proof {
                assert forall|t: int| 0 <= t < i + 1 implies #[trigger] placed_in(
                    groups@,
                    not_exists@,
                    t,
                ) by {
                    if t < i {
                        assert(placed_in(prior_groups, prior_rest, t));
                        if exists|k: int| 0 <= k < prior_rest.len() && prior_rest[k] == t {
                            let k = choose|k: int| 0 <= k < prior_rest.len() && prior_rest[k] == t;
                            assert(not_exists@[k] == t);
                        } else {
                            let (g, k) = choose|g: int, k: int|
                                0 <= g < prior_groups.len() && 0 <= k < prior_groups[g]@.len()
                                    && #[trigger] prior_groups[g]@[k] == t;
                            assert(groups@[g]@[k] == t);
                        }
                    }
                }
            }
            i += 1;
        }
        if not_exists.len() > 0 {
            let ghost before = groups@;
            groups.push(not_exists);
            proof {
                assert forall|g: int, h: int| 0 <= g < h < groups@.len() implies old(self).spec_find(items@[(#[trigger] groups@[g])@[0] as int]) != old(self).spec_find(
                    items@[(#[trigger] groups@[h])@[0] as int],
                ) by {
                    assert(old(self).spec_find(items@[groups@[g]@[0] as int]) == Some(keys@[g]));
                    if h < before.len() {
                        assert(old(self).spec_find(items@[groups@[h]@[0] as int]) == Some(
                            keys@[h],
                        ));
                    }
                }
                assert forall|i: int| 0 <= i < items@.len() implies #[trigger] placed_in(
                    groups@,
                    Seq::<usize>::empty(),
                    i,
                ) by {
                    assert(placed_in(before, not_exists@, i));
                    if exists|k: int| 0 <= k < not_exists@.len() && not_exists@[k] == i {
                        let k = choose|k: int| 0 <= k < not_exists@.len() && not_exists@[k] == i;
                        assert(groups@[groups@.len() - 1]@[k] == i);
                    } else {
                        let (g, k) = choose|g: int, k: int|
                            0 <= g < before.len() && 0 <= k < before[g]@.len()
                                && #[trigger] before[g]@[k] == i;
                        assert(groups@[g]@[k] == i);
                    }
                }
            }
        } else {
            proof {
                assert forall|g: int, h: int| 0 <= g < h < groups@.len() implies old(self).spec_find(items@[(#[trigger] groups@[g])@[0] as int]) != old(self).spec_find(
                    items@[(#[trigger] groups@[h])@[0] as int],
                ) by {
                    assert(old(self).spec_find(items@[groups@[g]@[0] as int]) == Some(keys@[g]));
                    assert(old(self).spec_find(items@[groups@[h]@[0] as int]) == Some(keys@[h]));
                }
                assert forall|i: int| 0 <= i < items@.len() implies #[trigger] placed_in(
                    groups@,
                    Seq::<usize>::empty(),
                    i,
                ) by {
                    assert(placed_in(groups@, not_exists@, i));
                }
            }
        }
        groups
    }
}

/// The position `t` stands in one of the groups or in the rest.
pub open spec fn placed_in(groups: Seq<Vec<usize>>, rest: Seq<usize>, t: int) -> bool {
    (exists|k: int| 0 <= k < rest.len() && rest[k] == t) || (exists|g: int, k: int|
        0 <= g < groups.len() && 0 <= k < groups[g]@.len() && #[trigger] groups[g]@[k] == t)
}

/// The representative has the least height in its set.
proof fn lemma_root_is_lowest(parents: Seq<Label>, root: Seq<int>, dist: Seq<nat>, i: int)
    requires
        root.len() == parents.len(),
        dist.len() == parents.len(),
        0 <= i < parents.len(),
        parents[i] != i,
        forall|k: int|
            0 <= k < parents.len() ==> 0 <= #[trigger] root[k] < parents.len() && parents[root[k]]
                == root[k] && root[root[k]] == root[k],
        forall|k: int|
            0 <= k < parents.len() ==> (#[trigger] parents[k]) < parents.len() && (parents[k] != k
                ==> root[parents[k] as int] == root[k] && dist[parents[k] as int] < dist[k]) && (
            parents[k] == k ==> root[k] == k),
    ensures
        dist[root[i]] < dist[i],
    decreases dist[i],
{
    let p = parents[i] as int;
    if parents[p] != p {
        lemma_root_is_lowest(parents, root, dist, p);
    }
}

} // verus!
