use std::collections::HashMap;
use vstd::prelude::*;

verus! {

broadcast use vstd::std_specs::hash::group_hash_axioms;

/// A link to a digit node: its index in a `BTreeArena`, or nothing.
pub type BTreeNodeLink = Option<usize>;

/// A node of a digit tree: numbers are stored as paths of decimal digits.
#[derive(Debug)]
pub struct BTreeNode {
    pub digit: i32,
    pub children: HashMap<i32, BTreeNodeLink>,
    pub is_terminal: bool,
}

/// The shared store of all digit nodes; a link is an index into it.
pub struct BTreeArena {
    pub nodes: Vec<BTreeNode>,
}

/// The decimal digits of `n`, most significant first (`0` has the single digit `0`).
pub open spec fn decimal_digits(n: nat) -> Seq<i32>
    decreases n,
{
    if n < 10 {
        seq![n as i32]
    } else {
        decimal_digits(n / 10).push((n % 10) as i32)
    }
}

/// The number that a sequence of decimal digits denotes, most significant
/// digit first.
pub open spec fn digits_value(ds: Seq<i32>) -> int
    decreases ds.len(),
{
    if ds.len() == 0 {
        0
    } else {
        digits_value(ds.drop_last()) * 10 + ds.last()
    }
}

/// `decimal_digits(n)` is the decimal expansion of `n`: every entry is a
/// digit from 0 to 9, it starts with a nonzero digit unless `n` is 0 (then it
/// is the single digit 0), and read back as a number it gives `n`.
pub proof fn lemma_decimal_digits(n: nat)
    ensures
        decimal_digits(n).len() >= 1,
        forall|i: int| 0 <= i < decimal_digits(n).len() ==> 0 <= #[trigger] decimal_digits(n)[i] <= 9,
        n > 0 ==> decimal_digits(n)[0] != 0,
        n == 0 ==> decimal_digits(n) == seq![0i32],
        digits_value(decimal_digits(n)) == n,
    decreases n,
{
    let ds = decimal_digits(n);
    if n < 10 {
        assert(ds.drop_last() =~= Seq::<i32>::empty());
        assert(ds.last() == n);
        assert(digits_value(ds.drop_last()) == 0);
    } else {
        let q = n / 10;
        lemma_decimal_digits(q);
        let dq = decimal_digits(q);
        assert(ds == dq.push((n % 10) as i32));
        assert(ds.drop_last() =~= dq);
        assert(ds[0] == dq[0]);
        vstd::arithmetic::div_mod::lemma_fundamental_div_mod(n as int, 10);
        assert(n as int == 10 * (n as int / 10) + n as int % 10);
        assert(q == n as int / 10);
        assert(ds.last() == n % 10);
        assert(digits_value(ds) == digits_value(dq) * 10 + ds.last());
        assert(digits_value(ds) == q * 10 + n % 10);
        assert forall|i: int| 0 <= i < ds.len() implies 0 <= #[trigger] ds[i] <= 9 by {
            if i < dq.len() {
                assert(ds[i] == dq[i]);
            }
        }
    }
}

impl BTreeArena {
    /// Every child entry holds a link to a node of the arena.
    pub open spec fn wf(self) -> bool {
        forall|i: int, d: i32|
            0 <= i < self.nodes@.len() && #[trigger] self.nodes@[i].children@.contains_key(d) ==> (
            self.nodes@[i].children@[d] matches Some(j) && j < self.nodes@.len())
    }

    /// The child of node `i` under digit `d`.
    pub open spec fn child(self, i: usize, d: i32) -> Option<usize> {
        let m = self.nodes@[i as int].children@;
        if m.contains_key(d) {
            m[d]
        } else {
            None
        }
    }

    /// The node reached from `start` by following the digits `ds`.
    pub open spec fn walk(self, start: usize, ds: Seq<i32>) -> Option<usize>
        decreases ds.len(),
    {
        if ds.len() == 0 {
            Some(start)
        } else {
            match self.walk(start, ds.drop_last()) {
                Some(c) => self.child(c, ds.last()),
                None => None,
            }
        }
    }

    /// The digit sequence `ds` ends at a terminal node of the tree under `root`.
    pub open spec fn accepts(self, root: BTreeNodeLink, ds: Seq<i32>) -> bool {
        match root {
            None => false,
            Some(r) => match self.walk(r, ds) {
                Some(n) => self.nodes@[n as int].is_terminal,
                None => false,
            },
        }
    }

    /// `new` is `self` after the digits `ds` were added under node `r`: every
    /// node keeps its digit and its child entries; the only new entries lie
    /// on the path of `ds` and lead to new nodes stored after the node they
    /// leave; every new node is reached by a prefix of `ds` and
    /// holds that prefix's last digit; the node at the end of the path is
    /// terminal; no other node's terminal flag differs from before (a new
    /// node counting as not terminal before).
    pub open spec fn inserted_into(self, new: BTreeArena, r: usize, ds: Seq<i32>) -> bool {
        &&& new.wf()
        &&& self.nodes@.len() <= new.nodes@.len()
        &&& forall|i: int| 0 <= i < self.nodes@.len() ==> (#[trigger] new.nodes@[i]).digit == self.nodes@[i].digit
        &&& forall|i: usize, d: i32|
            i < self.nodes@.len() && (#[trigger] self.child(i, d)) is Some ==> new.child(i, d) == self.child(i, d)
        &&& forall|i: usize, d: i32|
            i < new.nodes@.len() && (#[trigger] new.child(i, d)) is Some && (i >= self.nodes@.len() || self.child(i, d) is None)
                ==> exists|k: int| 0 <= k < ds.len() && new.walk(r, ds.take(k)) == Some(i) && ds[k] == d
        &&& forall|i: usize, d: i32|
            i < new.nodes@.len() && (#[trigger] new.child(i, d)) is Some && (i >= self.nodes@.len() || self.child(i, d) is None)
                ==> new.child(i, d)->0 >= self.nodes@.len() && new.child(i, d)->0 > i
        &&& forall|i: usize| self.nodes@.len() <= i < new.nodes@.len() ==> #[trigger] new.on_path(r, ds, i)
        &&& new.walk(r, ds) matches Some(e) && new.nodes@[e as int].is_terminal
        &&& forall|i: int|
            0 <= i < new.nodes@.len() && (#[trigger] new.nodes@[i]).is_terminal != (i < self.nodes@.len()
                && self.nodes@[i].is_terminal) ==> new.walk(r, ds) == Some(i as usize)
    }

    /// Node `i` is reached from `r` by a nonempty prefix of `ds` and holds
    /// that prefix's last digit.
    pub open spec fn on_path(self, r: usize, ds: Seq<i32>, i: usize) -> bool {
        exists|k: int| 0 <= k < ds.len() && #[trigger] self.walk(r, ds.take(k + 1)) == Some(i) && self.nodes@[i as int].digit == ds[k]
    }

    /// `new` is `self` with a fresh non-terminal node for `digit`, without
    /// children, stored last and entered as the child of `current` under
    /// `digit`; nothing else changes.
    pub open spec fn grown_by(self, new: BTreeArena, current: usize, digit: i32) -> bool {
        let n = self.nodes@.len();
        &&& new.nodes@.len() == n + 1
        &&& new.nodes@[n as int].digit == digit
        &&& !new.nodes@[n as int].is_terminal
        &&& new.nodes@[n as int].children@ == Map::<i32, BTreeNodeLink>::empty()
        &&& forall|i: int| 0 <= i < n && i != current ==> #[trigger] new.nodes@[i] == self.nodes@[i]
        &&& new.nodes@[current as int].digit == self.nodes@[current as int].digit
        &&& new.nodes@[current as int].is_terminal == self.nodes@[current as int].is_terminal
        &&& new.nodes@[current as int].children@ == self.nodes@[current as int].children@.insert(digit, Some(n as usize))
    }

    /// What holds of `a` after the first `k` digits of `ds` were added under
    /// node `r` of `self`, the walk having reached `current`; `birth` tells,
    /// for each node added, the position of its digit.
    pub open spec fn insert_progress(self, a: BTreeArena, r: usize, ds: Seq<i32>, k: int, current: usize, birth: Seq<int>) -> bool {
        &&& a.wf()
        &&& self.wf()
        &&& r < self.nodes@.len()
        &&& 0 <= k <= ds.len()
        &&& current < a.nodes@.len()
        &&& a.walk(r, ds.take(k)) == Some(current)
        &&& self.nodes@.len() <= a.nodes@.len()
        &&& birth.len() == a.nodes@.len() - self.nodes@.len()
        &&& forall|i: int| 0 <= i < self.nodes@.len() ==> (#[trigger] a.nodes@[i]).digit == self.nodes@[i].digit
        &&& forall|i: int| 0 <= i < self.nodes@.len() ==> (#[trigger] a.nodes@[i]).is_terminal == self.nodes@[i].is_terminal
        &&& forall|i: int| self.nodes@.len() <= i < a.nodes@.len() ==> {
            let j = birth[i - self.nodes@.len()];
            &&& !(#[trigger] a.nodes@[i]).is_terminal
            &&& 0 <= j < k
            &&& a.walk(r, ds.take(j + 1)) == Some(i as usize)
            &&& a.nodes@[i].digit == ds[j]
        }
        &&& forall|i: usize, d: i32|
            i < self.nodes@.len() && (#[trigger] self.child(i, d)) is Some ==> a.child(i, d) == self.child(i, d)
        &&& forall|i: usize, d: i32|
            i < a.nodes@.len() && (#[trigger] a.child(i, d)) is Some && (i >= self.nodes@.len() || self.child(i, d) is None)
                ==> exists|j: int| 0 <= j < k && a.walk(r, ds.take(j)) == Some(i) && ds[j] == d
        &&& forall|i: usize, d: i32|
            i < a.nodes@.len() && (#[trigger] a.child(i, d)) is Some && (i >= self.nodes@.len() || self.child(i, d) is None)
                ==> a.child(i, d)->0 >= self.nodes@.len() && a.child(i, d)->0 > i
    }

    /// One step of `insert` keeps its progress.
    #[verifier::spinoff_prover]
    #[verifier::rlimit(100)]
    pub proof fn lemma_insert_step(a0: BTreeArena, a1: BTreeArena, a2: BTreeArena, r: usize, ds: Seq<i32>, k: int, current: usize, next: usize, birth: Seq<int>)
        requires
            a0.insert_progress(a1, r, ds, k, current, birth),
            k < ds.len(),
            a2.wf(),
            a1.child(current, ds[k]) matches Some(j) ==> next == j && a2.nodes@ == a1.nodes@,
            a1.child(current, ds[k]) is None ==> a1.grown_by(a2, current, ds[k]),
            next < a2.nodes@.len(),
            a2.child(current, ds[k]) == Some(next),
            a2.nodes@.len() <= usize::MAX,
        ensures
            a0.insert_progress(a2, r, ds, k + 1, next, if a1.child(current, ds[k]) is None { birth.push(k) } else { birth }),
    {
        let d0 = ds[k];
        let birth2 = if a1.child(current, d0) is None { birth.push(k) } else { birth };
        assert(ds.take(k + 1).drop_last() =~= ds.take(k));
        assert(ds.take(k + 1).last() == d0);
        // every entry of a1 is kept in a2
        assert forall|i: usize, d: i32| i < a1.nodes@.len() && (#[trigger] a1.child(i, d)) is Some implies a2.child(i, d) == a1.child(i, d) by {
            if a1.child(current, d0) is None {
                if i != current {
                    assert(a2.nodes@[i as int] == a1.nodes@[i as int]);
                } else {
                    assert(d != d0);
                }
            }
        }
        a1.lemma_walk_kept(a2, r, ds.take(k));
        assert(a2.walk(r, ds.take(k + 1)) == Some(next));
        assert forall|i: int| a0.nodes@.len() <= i < a2.nodes@.len() implies {
            let j = birth2[i - a0.nodes@.len()];
            &&& !(#[trigger] a2.nodes@[i]).is_terminal
            &&& 0 <= j < k + 1
            &&& a2.walk(r, ds.take(j + 1)) == Some(i as usize)
            &&& a2.nodes@[i].digit == ds[j]
        } by {
            if i < a1.nodes@.len() {
                let j = birth[i - a0.nodes@.len()];
                assert(!a1.nodes@[i].is_terminal);
                assert(birth2[i - a0.nodes@.len()] == j);
                a1.lemma_walk_kept(a2, r, ds.take(j + 1));
                if a1.child(current, d0) is None && i != current {
                    assert(a2.nodes@[i] == a1.nodes@[i]);
                }
            } else {
                assert(birth2[i - a0.nodes@.len()] == k);
            }
        }
        assert forall|i: int| 0 <= i < a0.nodes@.len() implies (#[trigger] a2.nodes@[i]).digit == a0.nodes@[i].digit
            && a2.nodes@[i].is_terminal == a0.nodes@[i].is_terminal by {
            if a1.child(current, d0) is None && i != current {
                assert(a2.nodes@[i] == a1.nodes@[i]);
            }
        }
        BTreeArena::lemma_step_edges(a0, a1, a2, r, ds, k, current, next, birth);
        BTreeArena::lemma_step_fresh(a0, a1, a2, current, d0);
    }

    /// After one step of `insert`, every child entry that is new lies on the
    /// path walked so far.
    #[verifier::spinoff_prover]
    #[verifier::rlimit(60)]
    proof fn lemma_step_edges(a0: BTreeArena, a1: BTreeArena, a2: BTreeArena, r: usize, ds: Seq<i32>, k: int, current: usize, next: usize, birth: Seq<int>)
        requires
            a0.insert_progress(a1, r, ds, k, current, birth),
            k < ds.len(),
            a2.wf(),
            a1.child(current, ds[k]) matches Some(j) ==> next == j && a2.nodes@ == a1.nodes@,
            a1.child(current, ds[k]) is None ==> a1.grown_by(a2, current, ds[k]),
            next < a2.nodes@.len(),
            a2.child(current, ds[k]) == Some(next),
            forall|i: usize, d: i32| i < a1.nodes@.len() && (#[trigger] a1.child(i, d)) is Some ==> a2.child(i, d) == a1.child(i, d),
        ensures
            forall|i: usize, d: i32|
                i < a2.nodes@.len() && (#[trigger] a2.child(i, d)) is Some && (i >= a0.nodes@.len() || a0.child(i, d) is None)
                    ==> exists|j: int| 0 <= j < k + 1 && a2.walk(r, ds.take(j)) == Some(i) && ds[j] == d,
    {
        let d0 = ds[k];
        a1.lemma_walk_kept(a2, r, ds.take(k));
        assert forall|i: usize, d: i32|
            i < a2.nodes@.len() && (#[trigger] a2.child(i, d)) is Some && (i >= a0.nodes@.len() || a0.child(i, d) is None)
                implies exists|j: int| 0 <= j < k + 1 && a2.walk(r, ds.take(j)) == Some(i) && ds[j] == d by {
            if i == current && d == d0 {
                assert(a2.walk(r, ds.take(k)) == Some(current));
            } else {
                if a1.child(current, d0) is None {
                    if i < a1.nodes@.len() {
                        if i != current {
                            assert(a2.nodes@[i as int] == a1.nodes@[i as int]);
                        }
                        assert(a1.child(i, d) == a2.child(i, d));
                    } else {
                        assert(a2.nodes@[i as int].children@ == Map::<i32, BTreeNodeLink>::empty());
                    }
                }
                assert(a1.child(i, d) is Some);
                let j = choose|j: int| 0 <= j < k && a1.walk(r, ds.take(j)) == Some(i) && ds[j] == d;
                a1.lemma_walk_kept(a2, r, ds.take(j));
            }
        }
    }

    /// After one step of `insert`, every child entry that is new leads to a
    /// new node stored after the node it leaves.
    #[verifier::spinoff_prover]
    proof fn lemma_step_fresh(a0: BTreeArena, a1: BTreeArena, a2: BTreeArena, current: usize, d0: i32)
        requires
            a2.nodes@.len() <= usize::MAX,
            a0.nodes@.len() <= a1.nodes@.len(),
            current < a1.nodes@.len(),
            a1.child(current, d0) is Some ==> a2.nodes@ == a1.nodes@,
            a1.child(current, d0) is None ==> a1.grown_by(a2, current, d0),
            forall|i: usize, d: i32|
                i < a1.nodes@.len() && (#[trigger] a1.child(i, d)) is Some && (i >= a0.nodes@.len() || a0.child(i, d) is None)
                    ==> a1.child(i, d)->0 >= a0.nodes@.len() && a1.child(i, d)->0 > i,
        ensures
            forall|i: usize, d: i32|
                i < a2.nodes@.len() && (#[trigger] a2.child(i, d)) is Some && (i >= a0.nodes@.len() || a0.child(i, d) is None)
                    ==> a2.child(i, d)->0 >= a0.nodes@.len() && a2.child(i, d)->0 > i,
    {
        assert forall|i: usize, d: i32|
            i < a2.nodes@.len() && (#[trigger] a2.child(i, d)) is Some && (i >= a0.nodes@.len() || a0.child(i, d) is None)
                implies a2.child(i, d)->0 >= a0.nodes@.len() && a2.child(i, d)->0 > i by {
            if a1.child(current, d0) is None {
                if i == current && d == d0 {
                    assert(a2.nodes@[current as int].children@.contains_key(d0));
                    assert(a2.child(i, d) == Some(a1.nodes@.len() as usize));
                } else if i < a1.nodes@.len() {
                    if i != current {
                        assert(a2.nodes@[i as int] == a1.nodes@[i as int]);
                    } else {
                        assert(a2.nodes@[i as int].children@.contains_key(d) == a1.nodes@[i as int].children@.contains_key(d));
                    }
                    assert(a1.child(i, d) == a2.child(i, d));
                } else {
                    assert(a2.nodes@[i as int].children@ == Map::<i32, BTreeNodeLink>::empty());
                }
            } else {
                assert(a2.nodes@[i as int] == a1.nodes@[i as int]);
                assert(a1.child(i, d) == a2.child(i, d));
            }
        }
    }

    /// Changing only the terminal flag of one node keeps the arena well formed
    /// and keeps every walk.
    pub proof fn lemma_same_entries(a5: BTreeArena, a6: BTreeArena, r: usize, ds: Seq<i32>, current: usize)
        requires
            a5.wf(),
            r < a5.nodes@.len(),
            current < a5.nodes@.len(),
            a6.nodes@.len() == a5.nodes@.len(),
            forall|i: int| 0 <= i < a5.nodes@.len() && i != current ==> #[trigger] a6.nodes@[i] == a5.nodes@[i],
            a6.nodes@[current as int].children@ == a5.nodes@[current as int].children@,
        ensures
            a6.wf(),
            forall|i: usize, d: i32| i < a5.nodes@.len() ==> #[trigger] a6.child(i, d) == a5.child(i, d),
            forall|j: int| 0 <= j <= ds.len() ==> #[trigger] a6.walk(r, ds.take(j)) == a5.walk(r, ds.take(j)),
    {
        assert forall|i: usize, d: i32| i < a5.nodes@.len() implies #[trigger] a6.child(i, d) == a5.child(i, d) by {
            if i != current {
                assert(a6.nodes@[i as int] == a5.nodes@[i as int]);
            }
        }
        assert forall|j: int| 0 <= j <= ds.len() implies #[trigger] a6.walk(r, ds.take(j)) == a5.walk(r, ds.take(j)) by {
            BTreeArena::lemma_walk_same(a5, a6, r, ds.take(j));
        }
        assert forall|i: int, d: i32|
            0 <= i < a6.nodes@.len() && #[trigger] a6.nodes@[i].children@.contains_key(d) implies (
            a6.nodes@[i].children@[d] matches Some(j) && j < a6.nodes@.len()) by {
            if i != current {
                assert(a6.nodes@[i] == a5.nodes@[i]);
            }
        }
    }

    /// Marking the node at the end of the path terminal completes `insert`.
    #[verifier::spinoff_prover]
    #[verifier::rlimit(60)]
    pub proof fn lemma_insert_finish(a0: BTreeArena, a5: BTreeArena, a6: BTreeArena, r: usize, ds: Seq<i32>, current: usize, birth: Seq<int>)
        requires
            a0.insert_progress(a5, r, ds, ds.len() as int, current, birth),
            a6.nodes@.len() == a5.nodes@.len(),
            forall|i: int| 0 <= i < a5.nodes@.len() && i != current ==> #[trigger] a6.nodes@[i] == a5.nodes@[i],
            a6.nodes@[current as int].digit == a5.nodes@[current as int].digit,
            a6.nodes@[current as int].children@ == a5.nodes@[current as int].children@,
            a6.nodes@[current as int].is_terminal,
        ensures
            a0.inserted_into(a6, r, ds),
    {
        assert(ds.take(ds.len() as int) =~= ds);
        BTreeArena::lemma_same_entries(a5, a6, r, ds, current);
        assert(a6.walk(r, ds.take(ds.len() as int)) == a5.walk(r, ds.take(ds.len() as int)));
        BTreeArena::lemma_finish_edges(a0, a5, a6, r, ds, current, birth);
        BTreeArena::lemma_finish_nodes(a0, a5, a6, r, ds, current, birth);
    }

    #[verifier::spinoff_prover]
    proof fn lemma_finish_edges(a0: BTreeArena, a5: BTreeArena, a6: BTreeArena, r: usize, ds: Seq<i32>, current: usize, birth: Seq<int>)
        requires
            a0.insert_progress(a5, r, ds, ds.len() as int, current, birth),
            a6.nodes@.len() == a5.nodes@.len(),
            forall|i: usize, d: i32| i < a5.nodes@.len() ==> #[trigger] a6.child(i, d) == a5.child(i, d),
            forall|j: int| 0 <= j <= ds.len() ==> #[trigger] a6.walk(r, ds.take(j)) == a5.walk(r, ds.take(j)),
        ensures
            forall|i: usize, d: i32|
                i < a0.nodes@.len() && (#[trigger] a0.child(i, d)) is Some ==> a6.child(i, d) == a0.child(i, d),
            forall|i: usize, d: i32|
                i < a6.nodes@.len() && (#[trigger] a6.child(i, d)) is Some && (i >= a0.nodes@.len() || a0.child(i, d) is None)
                    ==> exists|k: int| 0 <= k < ds.len() && a6.walk(r, ds.take(k)) == Some(i) && ds[k] == d,
            forall|i: usize, d: i32|
                i < a6.nodes@.len() && (#[trigger] a6.child(i, d)) is Some && (i >= a0.nodes@.len() || a0.child(i, d) is None)
                    ==> a6.child(i, d)->0 >= a0.nodes@.len() && a6.child(i, d)->0 > i,
    {
        assert forall|i: usize, d: i32|
            i < a0.nodes@.len() && (#[trigger] a0.child(i, d)) is Some implies a6.child(i, d) == a0.child(i, d) by {
            assert(a5.child(i, d) == a0.child(i, d));
        }
        assert forall|i: usize, d: i32|
            i < a6.nodes@.len() && (#[trigger] a6.child(i, d)) is Some && (i >= a0.nodes@.len() || a0.child(i, d) is None)
                implies exists|k: int| 0 <= k < ds.len() && a6.walk(r, ds.take(k)) == Some(i) && ds[k] == d by {
            assert(a5.child(i, d) == a6.child(i, d));
            let k = choose|k: int| 0 <= k < ds.len() && a5.walk(r, ds.take(k)) == Some(i) && ds[k] == d;
            assert(a6.walk(r, ds.take(k)) == a5.walk(r, ds.take(k)));
        }
        assert forall|i: usize, d: i32|
            i < a6.nodes@.len() && (#[trigger] a6.child(i, d)) is Some && (i >= a0.nodes@.len() || a0.child(i, d) is None)
                implies a6.child(i, d)->0 >= a0.nodes@.len() && a6.child(i, d)->0 > i by {
            assert(a5.child(i, d) == a6.child(i, d));
        }
    }

    #[verifier::spinoff_prover]
    proof fn lemma_finish_nodes(a0: BTreeArena, a5: BTreeArena, a6: BTreeArena, r: usize, ds: Seq<i32>, current: usize, birth: Seq<int>)
        requires
            a0.insert_progress(a5, r, ds, ds.len() as int, current, birth),
            a6.nodes@.len() == a5.nodes@.len(),
            forall|i: int| 0 <= i < a5.nodes@.len() && i != current ==> #[trigger] a6.nodes@[i] == a5.nodes@[i],
            a6.nodes@[current as int].digit == a5.nodes@[current as int].digit,
            forall|j: int| 0 <= j <= ds.len() ==> #[trigger] a6.walk(r, ds.take(j)) == a5.walk(r, ds.take(j)),
            a6.walk(r, ds) == Some(current),
        ensures
            forall|i: int| 0 <= i < a0.nodes@.len() ==> (#[trigger] a6.nodes@[i]).digit == a0.nodes@[i].digit,
            forall|i: usize| a0.nodes@.len() <= i < a6.nodes@.len() ==> #[trigger] a6.on_path(r, ds, i),
            forall|i: int|
                0 <= i < a6.nodes@.len() && (#[trigger] a6.nodes@[i]).is_terminal != (i < a0.nodes@.len()
                    && a0.nodes@[i].is_terminal) ==> a6.walk(r, ds) == Some(i as usize),
    {
        assert forall|i: int| 0 <= i < a0.nodes@.len() implies (#[trigger] a6.nodes@[i]).digit == a0.nodes@[i].digit by {
            assert(a5.nodes@[i].digit == a0.nodes@[i].digit);
            if i != current {
                assert(a6.nodes@[i] == a5.nodes@[i]);
            }
        }
        assert forall|i: usize| a0.nodes@.len() <= i < a6.nodes@.len() implies #[trigger] a6.on_path(r, ds, i) by {
            let k = birth[i - a0.nodes@.len()];
            assert(!a5.nodes@[i as int].is_terminal);
            assert(a6.walk(r, ds.take(k + 1)) == a5.walk(r, ds.take(k + 1)));
            if i != current {
                assert(a6.nodes@[i as int] == a5.nodes@[i as int]);
            }
            assert(a6.nodes@[i as int].digit == ds[k]);
        }
        assert forall|i: int|
            0 <= i < a6.nodes@.len() && (#[trigger] a6.nodes@[i]).is_terminal != (i < a0.nodes@.len() && a0.nodes@[i].is_terminal)
                implies a6.walk(r, ds) == Some(i as usize) by {
            if i != current {
                assert(a6.nodes@[i] == a5.nodes@[i]);
                if i < a0.nodes@.len() {
                    assert(a5.nodes@[i].is_terminal == a0.nodes@[i].is_terminal);
                } else {
                    assert(!a5.nodes@[i].is_terminal);
                }
            }
        }
    }

    /// Walks only use child entries, so keeping every entry keeps every walk.
    pub proof fn lemma_walk_kept(self, new: BTreeArena, r: usize, ds: Seq<i32>)
        requires
            self.wf(),
            r < self.nodes@.len(),
            self.walk(r, ds) is Some,
            forall|i: usize, d: i32|
                i < self.nodes@.len() && (#[trigger] self.child(i, d)) is Some ==> new.child(i, d) == self.child(i, d),
        ensures
            new.walk(r, ds) == self.walk(r, ds),
            self.walk(r, ds)->0 < self.nodes@.len(),
        decreases ds.len(),
    {
        if ds.len() > 0 {
            self.lemma_walk_kept(new, r, ds.drop_last());
            let c = self.walk(r, ds.drop_last())->0;
            assert(self.nodes@[c as int].children@.contains_key(ds.last()));
        }
    }

    /// Two arenas with the same child entries walk the same way.
    pub proof fn lemma_walk_same(a: BTreeArena, b: BTreeArena, r: usize, ds: Seq<i32>)
        requires
            a.wf(),
            r < a.nodes@.len(),
            forall|i: usize, d: i32| i < a.nodes@.len() ==> #[trigger] b.child(i, d) == a.child(i, d),
        ensures
            b.walk(r, ds) == a.walk(r, ds),
            a.walk(r, ds) matches Some(e) ==> e < a.nodes@.len(),
        decreases ds.len(),
    {
        if ds.len() > 0 {
            BTreeArena::lemma_walk_same(a, b, r, ds.drop_last());
            if let Some(c) = a.walk(r, ds.drop_last()) {
                assert(b.child(c, ds.last()) == a.child(c, ds.last()));
                if a.nodes@[c as int].children@.contains_key(ds.last()) {
                }
            }
        }
    }

    /// A walk that fails on a prefix fails on the whole sequence.
    pub proof fn lemma_walk_none(a: BTreeArena, r: usize, ds: Seq<i32>, k: int)
        requires
            0 <= k <= ds.len(),
            a.walk(r, ds.take(k)) is None,
        ensures
            a.walk(r, ds) is None,
        decreases ds.len() - k,
    {
        if k < ds.len() {
            assert(ds.take(k + 1).drop_last() =~= ds.take(k));
            BTreeArena::lemma_walk_none(a, r, ds, k + 1);
        } else {
            assert(ds.take(k) =~= ds);
        }
    }

    /// After `insert(root, number)`, `lookup(root, digits of number)` is true,
    /// and every digit sequence accepted before is still accepted.
    pub proof fn lemma_insert_then_lookup(self, new: BTreeArena, root: BTreeNodeLink, number: i32)
        requires
            self.wf(),
            root matches Some(r) && r < self.nodes@.len(),
            number >= 0,
            self.inserted_into(new, root->0, decimal_digits(number as nat)),
        ensures
            new.accepts(root, decimal_digits(number as nat)),
            forall|ds: Seq<i32>| self.accepts(root, ds) ==> #[trigger] new.accepts(root, ds),
    {
        let r = root->0;
        assert forall|ds: Seq<i32>| self.accepts(root, ds) implies #[trigger] new.accepts(root, ds) by {
            self.lemma_walk_kept(new, r, ds);
            let n = self.walk(r, ds)->0;
            assert(new.nodes@[n as int].is_terminal);
        }
    }

    /// Every node below `r` is reached from `r` by one digit sequence only.
    pub open spec fn unique_paths(self, r: usize) -> bool {
        forall|x: Seq<i32>, y: Seq<i32>|
            #![trigger self.walk(r, x), self.walk(r, y)]
            self.walk(r, x) is Some && self.walk(r, x) == self.walk(r, y) ==> x == y
    }

    /// A walk of `new` that ends at a node `self` already had is a walk of
    /// `self`.
    pub proof fn lemma_walk_to_old(self, new: BTreeArena, r: usize, ds: Seq<i32>, x: Seq<i32>)
        requires
            self.wf(),
            r < self.nodes@.len(),
            self.inserted_into(new, r, ds),
            new.walk(r, x) matches Some(m) && m < self.nodes@.len(),
        ensures
            self.walk(r, x) == new.walk(r, x),
        decreases x.len(),
    {
        if x.len() > 0 {
            let y = x.drop_last();
            let d = x.last();
            let c = new.walk(r, y)->0;
            let m = new.walk(r, x)->0;
            BTreeArena::lemma_walk_same(new, new, r, y);
            assert(c < new.nodes@.len());
            assert(new.child(c, d) == Some(m));
            assert(new.nodes@[c as int].children@.contains_key(d));
            if c >= self.nodes@.len() {
                assert(new.child(c, d)->0 >= self.nodes@.len());
            }
            self.lemma_walk_to_old(new, r, ds, y);
            if self.child(c, d) is None {
                assert(new.child(c, d)->0 >= self.nodes@.len());
            }
        }
    }

    /// Along the path of `ds` in `new`, once a new node is reached every
    /// later node of the path is stored after it.
    pub proof fn lemma_path_forward(self, new: BTreeArena, r: usize, ds: Seq<i32>, j1: int, j2: int)
        requires
            r < self.nodes@.len(),
            self.inserted_into(new, r, ds),
            0 <= j1 < j2 <= ds.len(),
            new.walk(r, ds.take(j1)) matches Some(f) && f >= self.nodes@.len(),
        ensures
            new.walk(r, ds.take(j2)) matches Some(g) ==> g > new.walk(r, ds.take(j1))->0,
        decreases j2 - j1,
    {
        let f = new.walk(r, ds.take(j1))->0;
        assert(ds.take(j2).drop_last() =~= ds.take(j2 - 1));
        assert(ds.take(j2).last() == ds[j2 - 1]);
        if let Some(g) = new.walk(r, ds.take(j2)) {
            let c = new.walk(r, ds.take(j2 - 1))->0;
            BTreeArena::lemma_walk_same(new, new, r, ds.take(j2 - 1));
            assert(new.child(c, ds[j2 - 1]) == Some(g));
            assert(new.nodes@[c as int].children@.contains_key(ds[j2 - 1]));
            if j2 - 1 > j1 {
                self.lemma_path_forward(new, r, ds, j1, j2 - 1);
            }
            assert(c >= f);
            assert(g > c);
        }
    }

    /// Two prefixes of `ds` that lead to the same new node are the same.
    pub proof fn lemma_path_fresh_unique(self, new: BTreeArena, r: usize, ds: Seq<i32>, j1: int, j2: int)
        requires
            r < self.nodes@.len(),
            self.inserted_into(new, r, ds),
            0 <= j1 <= ds.len(),
            0 <= j2 <= ds.len(),
            new.walk(r, ds.take(j1)) matches Some(f) && f >= self.nodes@.len(),
            new.walk(r, ds.take(j2)) == new.walk(r, ds.take(j1)),
        ensures
            j1 == j2,
    {
        if j1 < j2 {
            self.lemma_path_forward(new, r, ds, j1, j2);
        } else if j2 < j1 {
            self.lemma_path_forward(new, r, ds, j2, j1);
        }
    }

    /// A walk of `new` that ends at a new node is a prefix of `ds`.
    pub proof fn lemma_walk_to_new(self, new: BTreeArena, r: usize, ds: Seq<i32>, x: Seq<i32>) -> (j: int)
        requires
            self.wf(),
            r < self.nodes@.len(),
            self.unique_paths(r),
            self.inserted_into(new, r, ds),
            new.walk(r, x) matches Some(m) && m >= self.nodes@.len(),
        ensures
            0 <= j <= ds.len(),
            x == ds.take(j),
        decreases x.len(),
    {
        let y = x.drop_last();
        let d = x.last();
        let c = new.walk(r, y)->0;
        let m = new.walk(r, x)->0;
        BTreeArena::lemma_walk_same(new, new, r, y);
        assert(c < new.nodes@.len());
        assert(new.child(c, d) == Some(m));
        assert(new.nodes@[c as int].children@.contains_key(d));
        if c < self.nodes@.len() && self.child(c, d) is Some {
            assert(self.nodes@[c as int].children@.contains_key(d));
        }
        let k = choose|k: int| 0 <= k < ds.len() && new.walk(r, ds.take(k)) == Some(c) && ds[k] == d;
        if c < self.nodes@.len() {
            self.lemma_walk_to_old(new, r, ds, y);
            self.lemma_walk_to_old(new, r, ds, ds.take(k));
            assert(self.walk(r, y) == self.walk(r, ds.take(k)));
            assert(y == ds.take(k));
        } else {
            let j0 = self.lemma_walk_to_new(new, r, ds, y);
            self.lemma_path_fresh_unique(new, r, ds, j0, k);
        }
        assert(x =~= ds.take(k + 1));
        k + 1
    }

    /// After `insert`, a digit sequence reaches a terminal node exactly when
    /// it did before or it is the sequence inserted, and every node is still
    /// reached by one sequence only.
    pub proof fn lemma_insert_exact(self, new: BTreeArena, root: BTreeNodeLink, ds: Seq<i32>)
        requires
            self.wf(),
            root matches Some(r) && r < self.nodes@.len(),
            self.unique_paths(root->0),
            self.inserted_into(new, root->0, ds),
        ensures
            forall|x: Seq<i32>| #[trigger] new.accepts(root, x) <==> (self.accepts(root, x) || x == ds),
            new.unique_paths(root->0),
    {
        let r = root->0;
        let e = new.walk(r, ds)->0;
        assert(ds.take(ds.len() as int) =~= ds);
        assert forall|x: Seq<i32>| #[trigger] new.accepts(root, x) <==> (self.accepts(root, x) || x == ds) by {
            if self.accepts(root, x) {
                self.lemma_walk_kept(new, r, x);
                let n = self.walk(r, x)->0;
                assert(new.nodes@[n as int].is_terminal);
            }
            if new.accepts(root, x) && !self.accepts(root, x) {
                let m = new.walk(r, x)->0;
                if m < self.nodes@.len() {
                    self.lemma_walk_to_old(new, r, ds, x);
                    assert(new.nodes@[m as int].is_terminal);
                    assert(!self.nodes@[m as int].is_terminal);
                    assert(new.walk(r, ds) == Some(m));
                    self.lemma_walk_to_old(new, r, ds, ds);
                    assert(self.walk(r, x) == self.walk(r, ds));
                } else {
                    let j = self.lemma_walk_to_new(new, r, ds, x);
                    BTreeArena::lemma_walk_same(new, new, r, x);
                    assert(new.nodes@[m as int].is_terminal);
                    assert(new.walk(r, ds) == Some(m));
                    self.lemma_path_fresh_unique(new, r, ds, j, ds.len() as int);
                }
            }
        }
        assert forall|x: Seq<i32>, y: Seq<i32>|
            #![trigger new.walk(r, x), new.walk(r, y)]
            new.walk(r, x) is Some && new.walk(r, x) == new.walk(r, y) implies x == y by {
            let m = new.walk(r, x)->0;
            if m < self.nodes@.len() {
                self.lemma_walk_to_old(new, r, ds, x);
                self.lemma_walk_to_old(new, r, ds, y);
                assert(self.walk(r, x) == self.walk(r, y));
            } else {
                let j1 = self.lemma_walk_to_new(new, r, ds, x);
                let j2 = self.lemma_walk_to_new(new, r, ds, y);
                self.lemma_path_fresh_unique(new, r, ds, j1, j2);
            }
        }
    }

    /// A node without children is reached from itself by the empty sequence only.
    pub proof fn lemma_lone_node_unique(self, r: usize)
        requires
            r < self.nodes@.len(),
            self.nodes@[r as int].children@ == Map::<i32, BTreeNodeLink>::empty(),
        ensures
            self.unique_paths(r),
    {
        assert forall|x: Seq<i32>| x.len() > 0 implies #[trigger] self.walk(r, x) is None by {
            self.lemma_lone_walk(r, x);
        }
        assert forall|x: Seq<i32>, y: Seq<i32>|
            #![trigger self.walk(r, x), self.walk(r, y)]
            self.walk(r, x) is Some && self.walk(r, x) == self.walk(r, y) implies x == y by {
            self.lemma_lone_walk(r, x);
            self.lemma_lone_walk(r, y);
        }
    }

    proof fn lemma_lone_walk(self, r: usize, x: Seq<i32>)
        requires
            r < self.nodes@.len(),
            self.nodes@[r as int].children@ == Map::<i32, BTreeNodeLink>::empty(),
        ensures
            x.len() > 0 ==> self.walk(r, x) is None,
            x.len() == 0 ==> x == Seq::<i32>::empty(),
        decreases x.len(),
    {
        if x.len() > 1 {
            self.lemma_lone_walk(r, x.drop_last());
        }
        if x.len() == 1 {
            assert(x.drop_last().len() == 0);
            assert(self.walk(r, x.drop_last()) == Some(r));
            assert(!self.nodes@[r as int].children@.contains_key(x.last()));
        }
        if x.len() == 0 {
            assert(x =~= Seq::<i32>::empty());
        }
    }

    /// An arena with no nodes.
    pub fn new() -> (a: BTreeArena)
        ensures
            a.wf(),
            a.nodes@.len() == 0,
    {
        BTreeArena { nodes: Vec::new() }
    }
}

/// The decimal digits of a non-negative number, most significant first.
fn digits_of(number: i32) -> (ds: Vec<i32>)
    requires
        number >= 0,
    ensures
        ds@ == decimal_digits(number as nat),
    decreases number,
{
    if number < 10 {
        let mut v = Vec::new();
        v.push(number);
        v
    } else {
        let mut v = digits_of(number / 10);
        v.push(number % 10);
        v
    }
}

impl BTreeNode {
    /// Stores a fresh non-terminal node for `digit` and returns its link.
    pub fn new(arena: &mut BTreeArena, digit: i32) -> (l: BTreeNodeLink)
        requires
            old(arena).wf(),
        ensures
            final(arena).wf(),
            final(arena).nodes@.len() == old(arena).nodes@.len() + 1,
            forall|i: int| 0 <= i < old(arena).nodes@.len() ==> #[trigger] final(arena).nodes@[i] == old(arena).nodes@[i],
            l == Some(old(arena).nodes@.len() as usize),
            final(arena).nodes@.last().digit == digit,
            final(arena).nodes@.last().children@ == Map::<i32, BTreeNodeLink>::empty(),
            !final(arena).nodes@.last().is_terminal,
            final(arena).unique_paths(l->0),
    {
        let l = arena.nodes.len();
        arena.nodes.push(BTreeNode { digit, children: HashMap::new(), is_terminal: false });
        proof {
            let a = *arena;
            assert forall|i: int, d: i32|
                0 <= i < a.nodes@.len() && #[trigger] a.nodes@[i].children@.contains_key(d) implies (
                a.nodes@[i].children@[d] matches Some(j) && j < a.nodes@.len()) by {
                if i < l {
                    assert(old(arena).nodes@[i] == a.nodes@[i]);
                }
            }
            a.lemma_lone_node_unique(l);
        }
        Some(l)
    }

    /// The child of node `current` under `digit`, adding a fresh node for
    /// `digit` there when it has none.
    fn child_or_insert(arena: &mut BTreeArena, current: usize, digit: i32) -> (next: usize)
        requires
            old(arena).wf(),
            current < old(arena).nodes@.len(),
        ensures
            final(arena).wf(),
            old(arena).child(current, digit) matches Some(j) ==> next == j && final(arena).nodes@ == old(arena).nodes@,
            old(arena).child(current, digit) is None ==> old(arena).grown_by(*final(arena), current, digit),
            next < final(arena).nodes@.len(),
            final(arena).child(current, digit) == Some(next),
    {
        let existing = arena.nodes[current].children.get(&digit);
        match existing {
            Some(link) => {
                proof {
                    assert(arena.nodes@[current as int].children@.contains_key(digit));
                }
                link.unwrap()
            },
            None => {
                let ghost a1 = *arena;
                let n = BTreeNode::new(arena, digit);
                let ghost a2 = *arena;
                arena.nodes[current].children.insert(digit, n);
                proof {
                    let a3 = *arena;
                    assert(a2.nodes@[current as int] == a1.nodes@[current as int]);
                    assert forall|i: int, d: i32|
                        0 <= i < a3.nodes@.len() && #[trigger] a3.nodes@[i].children@.contains_key(d) implies (
                        a3.nodes@[i].children@[d] matches Some(j) && j < a3.nodes@.len()) by {
                        if i != current {
                            assert(a3.nodes@[i] == a2.nodes@[i]);
                        } else if d != digit {
                            assert(a2.nodes@[i].children@.contains_key(d));
                        }
                    }
                    assert forall|i: int| 0 <= i < a1.nodes@.len() && i != current implies #[trigger] a3.nodes@[i] == a1.nodes@[i] by {
                        assert(a2.nodes@[i] == a1.nodes@[i]);
                    }
                    assert(a3.nodes@[current as int].children@ == a1.nodes@[current as int].children@.insert(digit, n));
                }
                n.unwrap()
            },
        }
    }

    /// Stores `number` (which must not be negative) as the path of its
    /// decimal digits under `root`, adding the missing nodes and marking the
    /// last one terminal.
    pub fn insert(arena: &mut BTreeArena, root: &BTreeNodeLink, number: i32)
        requires
            old(arena).wf(),
            *root matches Some(r) && r < old(arena).nodes@.len(),
            number >= 0,
        ensures
            old(arena).inserted_into(*final(arena), root->0, decimal_digits(number as nat)),
            digits_value(decimal_digits(number as nat)) == number,
            forall|i: int| 0 <= i < decimal_digits(number as nat).len() ==> 0 <= #[trigger] decimal_digits(number as nat)[i] <= 9,
            number > 0 ==> decimal_digits(number as nat)[0] != 0,
            old(arena).unique_paths(root->0) ==> {
                &&& forall|x: Seq<i32>| #[trigger] final(arena).accepts(*root, x)
                    <==> (old(arena).accepts(*root, x) || x == decimal_digits(number as nat))
                &&& final(arena).unique_paths(root->0)
            },
    {
        let digits = digits_of(number);
        let ghost ds = digits@;
        proof {
            lemma_decimal_digits(number as nat);
        }
        let ghost a0 = *arena;
        let r = root.unwrap();
        let mut current = r;
        let mut k: usize = 0;
        let ghost mut birth: Seq<int> = Seq::empty();
        proof {
            assert(ds.take(0) =~= Seq::<i32>::empty());
        }
        while k < digits.len()
            invariant
                a0 == *old(arena),
                ds == digits@,
                k <= ds.len(),
                a0.insert_progress(*arena, r, ds, k as int, current, birth),
            decreases digits.len() - k,
        {
            let digit = digits[k];
            let ghost a1 = *arena;
            let next = BTreeNode::child_or_insert(arena, current, digit);
            proof {
                assert(arena.nodes.len() == arena.nodes@.len());
                let new_birth = if a1.child(current, digit) is None { birth.push(k as int) } else { birth };
                BTreeArena::lemma_insert_step(a0, a1, *arena, r, ds, k as int, current, next, birth);
                birth = new_birth;
            }
            current = next;
            k = k + 1;
        }
        let ghost a5 = *arena;
        arena.nodes[current].is_terminal = true;
        proof {
            assert(ds.take(ds.len() as int) =~= ds);
            BTreeArena::lemma_insert_finish(a0, a5, *arena, r, ds, current, birth);
            if a0.unique_paths(r) {
                a0.lemma_insert_exact(*arena, *root, ds);
            }
        }
    }

    /// Follows `digits` from `root` and tells whether the node reached is terminal.
    pub fn lookup(arena: &BTreeArena, root: &BTreeNodeLink, digits: Vec<i32>) -> (found: bool)
        requires
            arena.wf(),
            *root matches Some(r) ==> r < arena.nodes@.len(),
        ensures
            found == arena.accepts(*root, digits@),
    {
        let mut current = match root {
            Some(node) => *node,
            None => return false,
        };
        let ghost r = current;
        let mut k: usize = 0;
        proof {
            assert(digits@.take(0) =~= Seq::<i32>::empty());
        }
        while k < digits.len()
            invariant
                arena.wf(),
                *root == Some(r),
                k <= digits@.len(),
                current < arena.nodes@.len(),
                arena.walk(r, digits@.take(k as int)) == Some(current),
            decreases digits.len() - k,
        {
            let digit = digits[k];
            proof {
                assert(digits@.take(k + 1).drop_last() =~= digits@.take(k as int));
                assert(digits@.take(k + 1).last() == digit);
            }
            let next = match arena.nodes[current].children.get(&digit) {
                Some(link) => *link,
                None => None,
            };
            match next {
                None => {
                    proof {
                        BTreeArena::lemma_walk_none(*arena, r, digits@, k as int + 1);
                    }
                    return false;
                },
                Some(n) => {
                    current = n;
                },
            }
            k = k + 1;
        }
        proof {
            assert(digits@.take(digits@.len() as int) =~= digits@);
        }
        arena.nodes[current].is_terminal
    }
}

} // verus!
