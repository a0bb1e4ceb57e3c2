use vstd::prelude::*;
use crate::structure::bst::{BstArena, BstNode, sorted_keys, strictly_sorted_keys, transplanted, set_left, set_right, set_parent, fresh_node, with_left, with_right, with_parent};

verus! {

/// The keys of a node's subtree: those of its left subtree, its own, then
/// those of its right subtree.
pub proof fn lemma_keys_unfold(a: BstArena, i: usize)
    requires
        a.wf(),
        i < a@.len(),
    ensures
        a.inorder(Some(i)) == a.inorder(a@[i as int].left) + seq![i] + a.inorder(a@[i as int].right),
        a.keys(Some(i)) == a.keys(a@[i as int].left) + seq![a@[i as int].key] + a.keys(a@[i as int].right),
        a.node_keys(a@[i as int]) == a.keys(Some(i)),
{
    let nd = a@[i as int];
    assert(a.fits(a.nodes@[i as int], a.rank@[i as int]));
    assert(a.inorder(Some(i)) == a.inorder(nd.left) + seq![i] + a.inorder(nd.right));
    assert(a.keys(Some(i)) =~= a.keys(nd.left) + seq![nd.key] + a.keys(nd.right));
}

/// Splitting a sorted key sequence around one key.
pub proof fn lemma_sorted_split(x: Seq<Option<i32>>, k: Option<i32>, y: Seq<Option<i32>>)
    requires
        sorted_keys(x + seq![k] + y),
    ensures
        sorted_keys(x),
        sorted_keys(y),
        k is Some,
        forall|i: int| 0 <= i < x.len() ==> (#[trigger] x[i])->0 <= k->0,
        forall|i: int| 0 <= i < y.len() ==> k->0 <= (#[trigger] y[i])->0,
{
    let s = x + seq![k] + y;
    assert(s[x.len() as int] == k);
    assert forall|i: int| 0 <= i < x.len() implies (#[trigger] x[i]) is Some by {
        assert(s[i] == x[i]);
    }
    assert forall|i: int, j: int| 0 <= i < j < x.len() implies (#[trigger] x[i])->0 <= (#[trigger] x[j])->0 by {
        assert(s[i] == x[i] && s[j] == x[j]);
    }
    assert forall|i: int| 0 <= i < y.len() implies (#[trigger] y[i]) is Some by {
        assert(s[x.len() + 1 + i] == y[i]);
    }
    assert forall|i: int, j: int| 0 <= i < j < y.len() implies (#[trigger] y[i])->0 <= (#[trigger] y[j])->0 by {
        assert(s[x.len() + 1 + i] == y[i] && s[x.len() + 1 + j] == y[j]);
    }
    assert forall|i: int| 0 <= i < x.len() implies (#[trigger] x[i])->0 <= k->0 by {
        assert(s[i] == x[i]);
    }
    assert forall|i: int| 0 <= i < y.len() implies k->0 <= (#[trigger] y[i])->0 by {
        assert(s[x.len() + 1 + i] == y[i]);
    }
}

/// Joining two sorted key sequences around one key that separates them.
pub proof fn lemma_sorted_join(x: Seq<Option<i32>>, k: Option<i32>, y: Seq<Option<i32>>)
    requires
        sorted_keys(x),
        sorted_keys(y),
        k is Some,
        forall|i: int| 0 <= i < x.len() ==> (#[trigger] x[i])->0 <= k->0,
        forall|i: int| 0 <= i < y.len() ==> k->0 <= (#[trigger] y[i])->0,
    ensures
        sorted_keys(x + seq![k] + y),
{
    let s = x + seq![k] + y;
    assert forall|i: int| 0 <= i < s.len() implies (#[trigger] s[i]) is Some by {
        if i < x.len() {
            assert(s[i] == x[i]);
        } else if i > x.len() {
            assert(s[i] == y[i - x.len() - 1]);
        }
    }
    assert forall|i: int, j: int| 0 <= i < j < s.len() implies (#[trigger] s[i])->0 <= (#[trigger] s[j])->0 by {
        if i < x.len() {
            assert(s[i] == x[i]);
            assert(x[i]->0 <= k->0);
        } else if i > x.len() {
            assert(s[i] == y[i - x.len() - 1]);
        }
        if j < x.len() {
            assert(s[j] == x[j]);
        } else if j > x.len() {
            assert(s[j] == y[j - x.len() - 1]);
            assert(k->0 <= y[j - x.len() - 1]->0);
        }
    }
}

/// In a sorted tree, the search finds a node exactly when the key is there,
/// and the node it finds holds the key.
pub proof fn lemma_search_correct(a: BstArena, i: usize, v: i32)
    requires
        a.wf(),
        i < a@.len(),
        sorted_keys(a.keys(Some(i))),
    ensures
        a.search_idx(i, v) is Some <==> a.keys(Some(i)).contains(Some(v)),
        a.search_idx(i, v) matches Some(j) ==> j < a@.len() && a@[j as int].key == Some(v),
    decreases a.down(Some(i)),
{
    let nd = a@[i as int];
    assert(a.fits(a.nodes@[i as int], a.rank@[i as int]));
    lemma_keys_unfold(a, i);
    let kl = a.keys(nd.left);
    let kr = a.keys(nd.right);
    let s = a.keys(Some(i));
    lemma_sorted_split(kl, nd.key, kr);
    let k = nd.key->0;
    assert(s[kl.len() as int] == nd.key);
    if let Some(l) = nd.left {
        lemma_keys_unfold(a, l);
        lemma_search_correct(a, l, v);
    }
    if let Some(r) = nd.right {
        lemma_keys_unfold(a, r);
        lemma_search_correct(a, r, v);
    }
    if nd.left is None {
        assert(kl.len() == 0);
    }
    if nd.right is None {
        assert(kr.len() == 0);
    }
    if s.contains(Some(v)) {
        let j = choose|j: int| 0 <= j < s.len() && s[j] == Some(v);
        if j < kl.len() {
            assert(kl[j] == Some(v));
            assert(kl.contains(Some(v)));
        } else if j > kl.len() {
            assert(kr[j - kl.len() - 1] == Some(v));
            assert(kr.contains(Some(v)));
        }
    }
    if kl.contains(Some(v)) {
        let j = choose|j: int| 0 <= j < kl.len() && kl[j] == Some(v);
        assert(s[j] == Some(v));
        assert(v <= k);
    }
    if kr.contains(Some(v)) {
        let j = choose|j: int| 0 <= j < kr.len() && kr[j] == Some(v);
        assert(s[kl.len() + 1 + j] == Some(v));
        assert(k <= v);
    }
}

/// The same for a search that starts at a node value.
pub proof fn lemma_search_node_correct(a: BstArena, nd: BstNode, v: i32)
    requires
        a.wf(),
        a.link_ok(nd.left),
        a.link_ok(nd.right),
        sorted_keys(a.node_keys(nd)),
    ensures
        a.search_node(nd, v) is Some <==> a.node_keys(nd).contains(Some(v)),
        a.search_node(nd, v) matches Some(f) ==> f.key == Some(v),
{
    let kl = a.keys(nd.left);
    let kr = a.keys(nd.right);
    let s = a.node_keys(nd);
    lemma_sorted_split(kl, nd.key, kr);
    let k = nd.key->0;
    assert(s[kl.len() as int] == nd.key);
    if let Some(l) = nd.left {
        lemma_keys_unfold(a, l);
        lemma_search_correct(a, l, v);
    }
    if let Some(r) = nd.right {
        lemma_keys_unfold(a, r);
        lemma_search_correct(a, r, v);
    }
    if nd.left is None {
        assert(kl.len() == 0);
    }
    if nd.right is None {
        assert(kr.len() == 0);
    }
    if s.contains(Some(v)) {
        let j = choose|j: int| 0 <= j < s.len() && s[j] == Some(v);
        if j < kl.len() {
            assert(kl[j] == Some(v));
            assert(kl.contains(Some(v)));
        } else if j > kl.len() {
            assert(kr[j - kl.len() - 1] == Some(v));
            assert(kr.contains(Some(v)));
        }
    }
    if kl.contains(Some(v)) {
        let j = choose|j: int| 0 <= j < kl.len() && kl[j] == Some(v);
        assert(s[j] == Some(v));
        assert(v <= k);
    }
    if kr.contains(Some(v)) {
        let j = choose|j: int| 0 <= j < kr.len() && kr[j] == Some(v);
        assert(s[kl.len() + 1 + j] == Some(v));
        assert(k <= v);
    }
}

/// When every key is present, `minimum` stops at the first node in order
/// and `maximum` at the last one.
pub proof fn lemma_extremes(a: BstArena, i: usize)
    requires
        a.wf(),
        i < a@.len(),
        forall|j: int| 0 <= j < a.keys(Some(i)).len() ==> (#[trigger] a.keys(Some(i))[j]) is Some,
    ensures
        a.leftmost(i) == a.inorder(Some(i))[0],
        a.rightmost(i) == a.inorder(Some(i)).last(),
    decreases a.down(Some(i)),
{
    let nd = a@[i as int];
    assert(a.fits(a.nodes@[i as int], a.rank@[i as int]));
    lemma_keys_unfold(a, i);
    let s = a.inorder(Some(i));
    let sl = a.inorder(nd.left);
    let sr = a.inorder(nd.right);
    let ks = a.keys(Some(i));
    assert(ks[sl.len() as int] == nd.key);
    if let Some(l) = nd.left {
        lemma_keys_unfold(a, l);
        assert forall|j: int| 0 <= j < a.keys(Some(l)).len() implies (#[trigger] a.keys(Some(l))[j]) is Some by {
            assert(ks[j] == a.keys(Some(l))[j]);
        }
        lemma_extremes(a, l);
        assert(s[0] == sl[0]);
    }
    if let Some(r) = nd.right {
        lemma_keys_unfold(a, r);
        assert forall|j: int| 0 <= j < a.keys(Some(r)).len() implies (#[trigger] a.keys(Some(r))[j]) is Some by {
            assert(ks[sl.len() + 1 + j] == a.keys(Some(r))[j]);
        }
        lemma_extremes(a, r);
        assert(s.last() == sr.last());
    }
}

/// The right spine of a subtree ends at its last node in order.
pub proof fn lemma_last_right(a: BstArena, i: usize)
    requires
        a.wf(),
        i < a@.len(),
    ensures
        a.last_right(i) == a.inorder(Some(i)).last(),
    decreases a.down(Some(i)),
{
    let nd = a@[i as int];
    assert(a.fits(a.nodes@[i as int], a.rank@[i as int]));
    lemma_keys_unfold(a, i);
    if let Some(r) = nd.right {
        lemma_last_right(a, r);
        lemma_keys_unfold(a, r);
    }
}

/// The node reached by following parent links has no parent.
pub proof fn lemma_root_has_no_parent(a: BstArena, i: usize)
    requires
        a.wf(),
        i < a@.len(),
    ensures
        a.root_of(i) < a@.len(),
        a@[a.root_of(i) as int].parent is None,
    decreases a.up(i),
{
    let nd = a@[i as int];
    assert(a.fits(a.nodes@[i as int], a.rank@[i as int]));
    if let Some(p) = nd.parent {
        assert(a.rank@[p as int] <= a.ceil@);
        lemma_root_has_no_parent(a, p);
    }
}


/// Splitting a sequence without duplicates around one element.
pub proof fn lemma_nodup_split<T>(x: Seq<T>, e: T, y: Seq<T>)
    requires
        (x + seq![e] + y).no_duplicates(),
    ensures
        x.no_duplicates(),
        y.no_duplicates(),
        !x.contains(e),
        !y.contains(e),
        forall|v: T| #[trigger] x.contains(v) ==> !y.contains(v),
{
    let s = x + seq![e] + y;
    assert forall|i: int, j: int| 0 <= i < x.len() && 0 <= j < x.len() && i != j implies x[i] != x[j] by {
        assert(s[i] == x[i] && s[j] == x[j]);
    }
    assert forall|i: int, j: int| 0 <= i < y.len() && 0 <= j < y.len() && i != j implies y[i] != y[j] by {
        assert(s[x.len() + 1 + i] == y[i] && s[x.len() + 1 + j] == y[j]);
    }
    assert(s[x.len() as int] == e);
    if x.contains(e) {
        let i = choose|i: int| 0 <= i < x.len() && x[i] == e;
        assert(s[i] == e);
    }
    if y.contains(e) {
        let i = choose|i: int| 0 <= i < y.len() && y[i] == e;
        assert(s[x.len() + 1 + i] == e);
    }
    assert forall|v: T| #[trigger] x.contains(v) implies !y.contains(v) by {
        if y.contains(v) {
            let i = choose|i: int| 0 <= i < x.len() && x[i] == v;
            let j = choose|j: int| 0 <= j < y.len() && y[j] == v;
            assert(s[i] == v && s[x.len() + 1 + j] == v);
        }
    }
}

/// Joining sequences without duplicates and without common elements around
/// an element found in neither.
pub proof fn lemma_nodup_join<T>(x: Seq<T>, e: T, y: Seq<T>)
    requires
        x.no_duplicates(),
        y.no_duplicates(),
        !x.contains(e),
        !y.contains(e),
        forall|v: T| #[trigger] x.contains(v) ==> !y.contains(v),
    ensures
        (x + seq![e] + y).no_duplicates(),
{
    let s = x + seq![e] + y;
    assert forall|i: int, j: int| 0 <= i < s.len() && 0 <= j < s.len() && i != j implies s[i] != s[j] by {
        if i < x.len() && j > x.len() {
            assert(s[i] == x[i] && s[j] == y[j - x.len() - 1]);
            assert(x.contains(x[i]));
            assert(y.contains(y[j - x.len() - 1]));
        } else if j < x.len() && i > x.len() {
            assert(s[j] == x[j] && s[i] == y[i - x.len() - 1]);
            assert(x.contains(x[j]));
            assert(y.contains(y[i - x.len() - 1]));
        } else if i == x.len() && j < x.len() {
            assert(x.contains(x[j]));
        } else if i == x.len() && j > x.len() {
            assert(y.contains(y[j - x.len() - 1]));
        } else if j == x.len() && i < x.len() {
            assert(x.contains(x[i]));
        } else if j == x.len() && i > x.len() {
            assert(y.contains(y[i - x.len() - 1]));
        } else if i < x.len() {
            assert(s[i] == x[i] && s[j] == x[j]);
        } else {
            assert(s[i] == y[i - x.len() - 1] && s[j] == y[j - x.len() - 1]);
        }
    }
}

/// The multiset of `x + [e] + y`.
pub proof fn lemma_ms3<T>(x: Seq<T>, e: T, y: Seq<T>)
    ensures
        (x + seq![e] + y).to_multiset() == x.to_multiset().add(y.to_multiset()).insert(e),
{
    broadcast use vstd::seq_lib::lemma_multiset_commutative;
    broadcast use vstd::multiset::group_multiset_axioms;
    assert(seq![e].to_multiset() =~= vstd::multiset::Multiset::<T>::empty().insert(e)) by {
        assert(seq![e] =~= Seq::<T>::empty().push(e));
        Seq::<T>::empty().to_multiset_ensures();
    }
    assert((x + seq![e] + y).to_multiset() =~= x.to_multiset().add(y.to_multiset()).insert(e));
}

/// An element of `s` found in the multiset of `s` with `e` added is either
/// `e` or an element of `t` when that multiset is `t`'s with `e` added.
pub proof fn lemma_ms_member<T>(s: Seq<T>, t: Seq<T>, e: T, v: T)
    requires
        s.to_multiset() == t.to_multiset().insert(e),
        s.contains(v),
    ensures
        v == e || t.contains(v),
{
    broadcast use vstd::seq_lib::to_multiset_contains;
    broadcast use vstd::multiset::group_multiset_axioms;
    assert(s.to_multiset().count(v) > 0);
}

/// `insert_spot` ends inside the subtree, at a node with a free slot on the
/// side the key goes to.
pub proof fn lemma_spot_facts(a: BstArena, m: usize, z: i32)
    requires
        a.wf(),
        m < a@.len(),
        a.insert_path_ok(m, z),
    ensures
        ({
            let (p, gr) = a.insert_spot(m, z);
            let pn = a@[p as int];
            &&& p < a@.len()
            &&& a.inorder(Some(m)).contains(p)
            &&& pn.key is Some
            &&& gr == (pn.key->0 < z)
            &&& gr ==> pn.right is None
            &&& !gr ==> pn.left is None
        }),
    decreases a.down(Some(m)),
{
    let nd = a@[m as int];
    assert(a.fits(a.nodes@[m as int], a.rank@[m as int]));
    a.lemma_inorder_facts(Some(m));
    let k = nd.key->0;
    if k < z {
        if let Some(r) = nd.right {
            lemma_spot_facts(a, r, z);
        }
    } else {
        if let Some(l) = nd.left {
            lemma_spot_facts(a, l, z);
        }
    }
}

/// Inserting under a sorted subtree without repeated nodes keeps it sorted
/// and without repeated nodes, and adds exactly the new node and its key.
pub proof fn lemma_insert_sorted(a: BstArena, b: BstArena, m: usize, z: i32)
    requires
        a.wf(),
        b.wf(),
        m < a@.len(),
        a@.len() < usize::MAX,
        a.insert_path_ok(m, z),
        b@ == a.inserted_at(a.insert_spot(m, z), z),
        a.inorder(Some(m)).no_duplicates(),
        sorted_keys(a.keys(Some(m))),
    ensures
        b.inorder(Some(m)).to_multiset() == a.inorder(Some(m)).to_multiset().insert(a@.len() as usize),
        b.inorder(Some(m)).no_duplicates(),
        b.keys(Some(m)).to_multiset() == a.keys(Some(m)).to_multiset().insert(Some(z)),
        sorted_keys(b.keys(Some(m))),
    decreases a.down(Some(m)),
{
    let nd = a@[m as int];
    let x = a@.len() as usize;
    let (p, gr) = a.insert_spot(m, z);
    assert(a.fits(a.nodes@[m as int], a.rank@[m as int]));
    lemma_spot_facts(a, m, z);
    lemma_keys_unfold(a, m);
    let sl = a.inorder(nd.left);
    let sr = a.inorder(nd.right);
    let kl = a.keys(nd.left);
    let kr = a.keys(nd.right);
    lemma_nodup_split(sl, m, sr);
    lemma_sorted_split(kl, nd.key, kr);
    a.lemma_inorder_facts(nd.left);
    a.lemma_inorder_facts(nd.right);
    let k = nd.key->0;
    assert(b@.len() == a@.len() + 1);
    assert(b@[x as int] == fresh_node(z, Some(p)));
    assert forall|j: usize| j < a@.len() && j != p implies #[trigger] b@[j as int] == a@[j as int] by {}
    assert(x == a@.len());
    // nodes of a subtree avoiding the spot keep their order and keys
    assert forall|sub: Option<usize>|
        a.link_ok(sub) && !(#[trigger] a.inorder(sub)).contains(p) implies b.inorder(sub) == a.inorder(sub) && b.keys(sub)
            == a.keys(sub) by {
        a.lemma_inorder_facts(sub);
        if let Some(q) = sub {
            assert forall|j: usize| #[trigger] a.inorder(sub).contains(j) implies j < b@.len() && j < a@.len()
                && b@[j as int] == a@[j as int] by {}
            a.lemma_frame(b, q);
            assert forall|i: int| 0 <= i < a.inorder(sub).len() implies #[trigger] b.keys(sub)[i] == a.keys(sub)[i] by {
                assert(a.inorder(sub).contains(a.inorder(sub)[i]));
            }
            assert(b.keys(sub) =~= a.keys(sub));
        }
    }
    if k < z {
        if let Some(r) = nd.right {
            lemma_spot_facts(a, r, z);
            assert(a.insert_spot(m, z) == a.insert_spot(r, z));
            lemma_keys_unfold(a, r);
            assert(sr.contains(p));
        } else {
            assert(p == m);
        }
        assert(!sl.contains(p));
        let bl = b.inorder(nd.left);
        assert(bl == sl && b.keys(nd.left) == kl);
        assert(!sl.contains(x));
        if let Some(r) = nd.right {
            lemma_keys_unfold(a, r);
            assert(a.insert_spot(m, z) == a.insert_spot(r, z));
            assert(p != m);
            assert(b@[m as int] == nd);
            lemma_insert_sorted(a, b, r, z);
            lemma_keys_unfold(b, m);
            let br = b.inorder(nd.right);
            let kbr = b.keys(nd.right);
            assert forall|v: usize| #[trigger] bl.contains(v) implies !br.contains(v) by {
                if br.contains(v) {
                    lemma_ms_member(br, sr, x, v);
                }
            }
            if br.contains(m) {
                lemma_ms_member(br, sr, x, m);
            }
            lemma_nodup_join(bl, m, br);
            lemma_ms3(sl, m, sr);
            lemma_ms3(bl, m, br);
            assert(b.inorder(Some(m)).to_multiset() =~= a.inorder(Some(m)).to_multiset().insert(x));
            assert forall|i: int| 0 <= i < kbr.len() implies k <= (#[trigger] kbr[i])->0 by {
                assert(kbr.contains(kbr[i]));
                lemma_ms_member(kbr, kr, Some(z), kbr[i]);
                if kr.contains(kbr[i]) {
                    let j = choose|j: int| 0 <= j < kr.len() && kr[j] == kbr[i];
                }
            }
            lemma_sorted_join(kl, nd.key, kbr);
            lemma_ms3(kl, nd.key, kr);
            lemma_ms3(kl, nd.key, kbr);
            assert(b.keys(Some(m)).to_multiset() =~= a.keys(Some(m)).to_multiset().insert(Some(z)));
        } else {
            assert(p == m);
            assert(b@[m as int] == with_right(nd, Some(x)));
            assert(b.fits(b.nodes@[x as int], b.rank@[x as int]));
            lemma_keys_unfold(b, x);
            assert(b.inorder(Some(x)) =~= seq![x]);
            assert(b.keys(Some(x)) =~= seq![Some(z)]);
            lemma_keys_unfold(b, m);
            assert(sr.len() == 0);
            lemma_nodup_join(bl, m, seq![x]);
            lemma_ms3(sl, m, sr);
            lemma_ms3(bl, m, seq![x]);
            assert(seq![x].to_multiset() =~= vstd::multiset::Multiset::<usize>::empty().insert(x)) by {
                assert(seq![x] =~= Seq::<usize>::empty().push(x));
                Seq::<usize>::empty().to_multiset_ensures();
            }
            assert(sr =~= Seq::<usize>::empty());
            assert(sr.to_multiset() =~= vstd::multiset::Multiset::<usize>::empty()) by {
                sr.to_multiset_ensures();
                vstd::multiset::lemma_multiset_empty_len(sr.to_multiset());
            }
            assert(b.inorder(Some(m)).to_multiset() =~= a.inorder(Some(m)).to_multiset().insert(x)) by {
                broadcast use vstd::multiset::group_multiset_axioms;
            }
            lemma_sorted_join(kl, nd.key, seq![Some(z)]);
            assert(kr =~= Seq::<Option<i32>>::empty());
            assert(kr.to_multiset() =~= vstd::multiset::Multiset::<Option<i32>>::empty()) by {
                kr.to_multiset_ensures();
                vstd::multiset::lemma_multiset_empty_len(kr.to_multiset());
            }
            lemma_ms3(kl, nd.key, kr);
            lemma_ms3(kl, nd.key, seq![Some(z)]);
            assert(seq![Some(z)].to_multiset() =~= vstd::multiset::Multiset::<Option<i32>>::empty().insert(Some(z))) by {
                assert(seq![Some(z)] =~= Seq::<Option<i32>>::empty().push(Some(z)));
                Seq::<Option<i32>>::empty().to_multiset_ensures();
            }
            assert(b.keys(Some(m)).to_multiset() =~= a.keys(Some(m)).to_multiset().insert(Some(z))) by {
                broadcast use vstd::multiset::group_multiset_axioms;
            }
        }
    } else {
        if let Some(l) = nd.left {
            lemma_spot_facts(a, l, z);
            assert(a.insert_spot(m, z) == a.insert_spot(l, z));
            lemma_keys_unfold(a, l);
            assert(sl.contains(p));
        } else {
            assert(p == m);
        }
        assert(!sr.contains(p));
        let br = b.inorder(nd.right);
        assert(br == sr && b.keys(nd.right) == kr);
        assert(!sr.contains(x));
        if let Some(l) = nd.left {
            lemma_keys_unfold(a, l);
            assert(a.insert_spot(m, z) == a.insert_spot(l, z));
            assert(p != m);
            assert(b@[m as int] == nd);
            lemma_insert_sorted(a, b, l, z);
            lemma_keys_unfold(b, m);
            let bl = b.inorder(nd.left);
            let kbl = b.keys(nd.left);
            assert forall|v: usize| #[trigger] bl.contains(v) implies !br.contains(v) by {
                lemma_ms_member(bl, sl, x, v);
            }
            if bl.contains(m) {
                lemma_ms_member(bl, sl, x, m);
            }
            lemma_nodup_join(bl, m, br);
            lemma_ms3(sl, m, sr);
            lemma_ms3(bl, m, br);
            assert(b.inorder(Some(m)).to_multiset() =~= a.inorder(Some(m)).to_multiset().insert(x));
            assert forall|i: int| 0 <= i < kbl.len() implies (#[trigger] kbl[i])->0 <= k by {
                assert(kbl.contains(kbl[i]));
                lemma_ms_member(kbl, kl, Some(z), kbl[i]);
                if kl.contains(kbl[i]) {
                    let j = choose|j: int| 0 <= j < kl.len() && kl[j] == kbl[i];
                }
            }
            lemma_sorted_join(kbl, nd.key, kr);
            lemma_ms3(kl, nd.key, kr);
            lemma_ms3(kbl, nd.key, kr);
            assert(b.keys(Some(m)).to_multiset() =~= a.keys(Some(m)).to_multiset().insert(Some(z)));
        } else {
            assert(p == m);
            assert(b@[m as int] == with_left(nd, Some(x)));
            assert(b.fits(b.nodes@[x as int], b.rank@[x as int]));
            lemma_keys_unfold(b, x);
            assert(b.inorder(Some(x)) =~= seq![x]);
            assert(b.keys(Some(x)) =~= seq![Some(z)]);
            lemma_keys_unfold(b, m);
            assert(sl.len() == 0);
            lemma_nodup_join(seq![x], m, br);
            lemma_ms3(sl, m, sr);
            lemma_ms3(seq![x], m, br);
            assert(seq![x].to_multiset() =~= vstd::multiset::Multiset::<usize>::empty().insert(x)) by {
                assert(seq![x] =~= Seq::<usize>::empty().push(x));
                Seq::<usize>::empty().to_multiset_ensures();
            }
            assert(sl =~= Seq::<usize>::empty());
            assert(sl.to_multiset() =~= vstd::multiset::Multiset::<usize>::empty()) by {
                sl.to_multiset_ensures();
                vstd::multiset::lemma_multiset_empty_len(sl.to_multiset());
            }
            assert(b.inorder(Some(m)).to_multiset() =~= a.inorder(Some(m)).to_multiset().insert(x)) by {
                broadcast use vstd::multiset::group_multiset_axioms;
            }
            lemma_sorted_join(seq![Some(z)], nd.key, kr);
            assert(kl =~= Seq::<Option<i32>>::empty());
            assert(kl.to_multiset() =~= vstd::multiset::Multiset::<Option<i32>>::empty()) by {
                kl.to_multiset_ensures();
                vstd::multiset::lemma_multiset_empty_len(kl.to_multiset());
            }
            lemma_ms3(kl, nd.key, kr);
            lemma_ms3(seq![Some(z)], nd.key, kr);
            assert(seq![Some(z)].to_multiset() =~= vstd::multiset::Multiset::<Option<i32>>::empty().insert(Some(z))) by {
                assert(seq![Some(z)] =~= Seq::<Option<i32>>::empty().push(Some(z)));
                Seq::<Option<i32>>::empty().to_multiset_ensures();
            }
            assert(b.keys(Some(m)).to_multiset() =~= a.keys(Some(m)).to_multiset().insert(Some(z))) by {
                broadcast use vstd::multiset::group_multiset_axioms;
            }
        }
    }
}


/// The nodes of a subtree form one contiguous block of the order of any
/// subtree that holds its top.
pub proof fn lemma_block(a: BstArena, t: usize, y: usize) -> (st: int)
    requires
        a.wf(),
        t < a@.len(),
        a.inorder(Some(t)).contains(y),
    ensures
        0 <= st,
        st + a.inorder(Some(y)).len() <= a.inorder(Some(t)).len(),
        a.inorder(Some(t)).subrange(st, st + a.inorder(Some(y)).len()) == a.inorder(Some(y)),
    decreases a.down(Some(t)),
{
    let nd = a@[t as int];
    lemma_keys_unfold(a, t);
    a.lemma_inorder_facts(Some(t));
    let s = a.inorder(Some(t));
    let sl = a.inorder(nd.left);
    let sr = a.inorder(nd.right);
    if y == t {
        assert(s.subrange(0, s.len() as int) =~= s);
        0
    } else {
        let j = choose|j: int| 0 <= j < s.len() && s[j] == y;
        if j < sl.len() {
            assert(sl[j] == y);
            assert(sl.contains(y));
            let l = nd.left->0;
            let st0 = lemma_block(a, l, y);
            let n = a.inorder(Some(y)).len();
            assert(s.subrange(st0, st0 + n) =~= sl.subrange(st0, st0 + n));
            st0
        } else {
            assert(j != sl.len());
            assert(sr[j - sl.len() - 1] == y);
            assert(sr.contains(y));
            let r = nd.right->0;
            let st0 = lemma_block(a, r, y);
            let n = a.inorder(Some(y)).len();
            let off: int = sl.len() as int + 1;
            assert(s.subrange(off + st0, off + st0 + n) =~= sr.subrange(st0, st0 + n));
            off + st0
        }
    }
}

/// A node of a subtree whose top is a node of another subtree belongs to
/// that other subtree too.
pub proof fn lemma_sub_contains(a: BstArena, t: usize, u: usize, w: usize)
    requires
        a.wf(),
        t < a@.len(),
        a.inorder(Some(t)).contains(u),
        a.inorder(Some(u)).contains(w),
    ensures
        a.inorder(Some(t)).contains(w),
{
    a.lemma_inorder_facts(Some(t));
    let st = lemma_block(a, t, u);
    let su = a.inorder(Some(u));
    let j = choose|j: int| 0 <= j < su.len() && su[j] == w;
    assert(a.inorder(Some(t))[st + j] == su[j]);
}

/// In a tree whose children name their parents, every node but the top has
/// as parent a node of the tree that holds it as a child.
pub proof fn lemma_tree_parent(a: BstArena, t: usize, u: usize, w: usize) -> (e: usize)
    requires
        a.wf(),
        a.linked_tree(t),
        a.inorder(Some(t)).contains(u),
        a.inorder(Some(u)).contains(w),
        w != u,
    ensures
        a.inorder(Some(t)).contains(e),
        a@[e as int].left == Some(w) || a@[e as int].right == Some(w),
        a@[w as int].parent == Some(e),
    decreases a.down(Some(u)),
{
    a.lemma_inorder_facts(Some(t));
    a.lemma_inorder_facts(Some(u));
    let nd = a@[u as int];
    lemma_keys_unfold(a, u);
    let su = a.inorder(Some(u));
    let sl = a.inorder(nd.left);
    let sr = a.inorder(nd.right);
    assert(u < a@.len());
    assert(a.fits(a.nodes@[u as int], a.rank@[u as int]));
    let j = choose|j: int| 0 <= j < su.len() && su[j] == w;
    if j < sl.len() {
        assert(sl[j] == w);
        let l = nd.left->0;
        a.lemma_inorder_facts(Some(l));
        if w == l {
            u
        } else {
            assert(sl.contains(w));
            lemma_sub_contains(a, t, u, l);
            lemma_tree_parent(a, t, l, w)
        }
    } else {
        assert(j != sl.len());
        assert(sr[j - sl.len() - 1] == w);
        let r = nd.right->0;
        a.lemma_inorder_facts(Some(r));
        if w == r {
            u
        } else {
            assert(sr.contains(w));
            lemma_sub_contains(a, t, u, r);
            lemma_tree_parent(a, t, r, w)
        }
    }
}

/// The walk up of `tree_successor` from `w`, where `x` is the last node of
/// the subtree under `w`, finds the node after `x` in order, or nothing when
/// `x` is the last node of the tree.
pub proof fn lemma_succ_walk(a: BstArena, t: usize, w: usize, x: usize, i: int)
    requires
        a.wf(),
        a.linked_search_tree(t),
        a.inorder(Some(t)).contains(w),
        a.inorder(Some(w)).last() == x,
        0 <= i < a.inorder(Some(t)).len(),
        a.inorder(Some(t))[i] == x,
    ensures
        a.succ_walk(w) == (if i + 1 < a.inorder(Some(t)).len() {
            Some(a.inorder(Some(t))[i + 1])
        } else {
            None
        }),
    decreases a.up(w),
{
    let s = a.inorder(Some(t));
    a.lemma_inorder_facts(Some(t));
    a.lemma_inorder_facts(Some(w));
    assert(a.fits(a.nodes@[w as int], a.rank@[w as int]));
    if w == t {
        assert(s.last() == x);
        assert(s[s.len() - 1] == x);
        assert(i == s.len() - 1);
    } else {
        let e = lemma_tree_parent(a, t, t, w);
        assert(a.fits(a.nodes@[e as int], a.rank@[e as int]));
        assert(a.rank@[e as int] <= a.ceil@);
        let en = a@[e as int];
        lemma_keys_unfold(a, e);
        a.lemma_inorder_facts(Some(e));
        let se = a.inorder(Some(e));
        let sl = a.inorder(en.left);
        let sr = a.inorder(en.right);
        let st = lemma_block(a, t, e);
        assert(s.subrange(st, st + se.len()) == se);
        let sw = a.inorder(Some(w));
        lemma_nodup_split(sl, e, sr);
        if en.left == Some(w) {
            // x is the last node of the left subtree of e, so e comes right after it
            let k = st + sl.len() - 1;
            assert(sl.len() > 0);
            assert(s[k] == se[sl.len() - 1]);
            assert(se[sl.len() - 1] == sl.last());
            assert(s[k] == x);
            assert(s[st + sl.len()] == se[sl.len() as int]);
            assert(se[sl.len() as int] == e);
            assert(i == k) by {
                if i != k {
                    assert(s[i] == s[k]);
                }
            }
            assert(a.succ_walk(w) == Some(e));
        } else {
            assert(en.right == Some(w));
            assert(sr.len() > 0);
            assert(se.last() == sr.last());
            if let Some(lc) = en.left {
                // the left child is another node of the tree, so its key differs from w's
                a.lemma_inorder_facts(Some(lc));
                assert(sl.contains(lc));
                assert(sr.contains(w));
                assert(lc != w);
                lemma_sub_contains(a, t, e, lc);
                let p1 = choose|p1: int| 0 <= p1 < s.len() && s[p1] == lc;
                let p2 = choose|p2: int| 0 <= p2 < s.len() && s[p2] == w;
                assert(p1 != p2);
                let ks = a.keys(Some(t));
                assert(ks[p1] == a@[lc as int].key && ks[p2] == a@[w as int].key);
                if p1 < p2 {
                    assert(ks[p1]->0 < ks[p2]->0);
                } else {
                    assert(ks[p2]->0 < ks[p1]->0);
                }
            }
            lemma_succ_walk(a, t, e, x, i);
        }
    }
}

/// The law of `tree_successor` on a linked search tree: the node it returns
/// (or whose copy it returns) is the one right after `x` in key order, and
/// there is none when `x` holds the greatest key.
pub proof fn lemma_successor_law(a: BstArena, t: usize, x: usize, i: int)
    requires
        a.wf(),
        a.linked_search_tree(t),
        0 <= i < a.inorder(Some(t)).len(),
        a.inorder(Some(t))[i] == x,
    ensures
        ({
            let s = a.inorder(Some(t));
            match a@[x as int].right {
                Some(rt) => i + 1 < s.len() && a.min_node(a@[rt as int]) == a@[s[i + 1] as int],
                None => a.succ_walk(x) == (if i + 1 < s.len() { Some(s[i + 1]) } else { None }),
            }
        }),
{
    let s = a.inorder(Some(t));
    a.lemma_inorder_facts(Some(t));
    assert(s.contains(x));
    a.lemma_inorder_facts(Some(x));
    assert(a.fits(a.nodes@[x as int], a.rank@[x as int]));
    let nd = a@[x as int];
    lemma_keys_unfold(a, x);
    let sx = a.inorder(Some(x));
    let sl = a.inorder(nd.left);
    let sr = a.inorder(nd.right);
    let st = lemma_block(a, t, x);
    assert(s.subrange(st, st + sx.len()) == sx);
    assert(s[st + sl.len()] == sx[sl.len() as int]);
    assert(sx[sl.len() as int] == x);
    assert(i == st + sl.len()) by {
        if i != st + sl.len() {
            assert(s[i] == s[st + sl.len()]);
        }
    }
    match nd.right {
        Some(rt) => {
            a.lemma_inorder_facts(Some(rt));
            assert(sr.len() > 0);
            assert(s[i + 1] == sx[sl.len() as int + 1]);
            assert(sx[sl.len() as int + 1] == sr[0]);
            lemma_keys_unfold(a, rt);
            // every key of the tree is present, so the least node of the right subtree is its first
            let ks = a.keys(Some(t));
            let krt = a.keys(Some(rt));
            assert forall|j: int| 0 <= j < krt.len() implies (#[trigger] krt[j]) is Some by {
                lemma_sub_contains(a, t, x, rt);
                assert(sx[sl.len() + 1 + j] == sr[j]);
                assert(s[st + sl.len() + 1 + j] == sr[j]);
                assert(ks[st + sl.len() + 1 + j] == krt[j]);
            }
            lemma_extremes(a, rt);
            let rn = a@[rt as int];
            if rn.key is Some && rn.left is Some {
                assert(a.leftmost(rt) == a.leftmost(rn.left->0));
            } else {
                assert(a.leftmost(rt) == rt);
            }
        },
        None => {
            assert(sr.len() == 0);
            assert(sx.last() == x);
            lemma_succ_walk(a, t, x, x, i);
        },
    }
}


/// A subtree of a tree without repeated nodes has no repeated nodes.
pub proof fn lemma_nodup_sub(a: BstArena, t: usize, u: usize)
    requires
        a.wf(),
        t < a@.len(),
        a.inorder(Some(t)).no_duplicates(),
        a.inorder(Some(t)).contains(u),
    ensures
        a.inorder(Some(u)).no_duplicates(),
{
    let st = lemma_block(a, t, u);
    let s = a.inorder(Some(t));
    let su = a.inorder(Some(u));
    assert forall|i: int, j: int| 0 <= i < su.len() && 0 <= j < su.len() && i != j implies su[i] != su[j] by {
        assert(su[i] == s[st + i] && su[j] == s[st + j]);
    }
}

/// Every node of a subtree other than its top ranks below the top.
pub proof fn lemma_below_ranks(a: BstArena, u: usize, j: usize)
    requires
        a.wf(),
        u < a@.len(),
        a.inorder(Some(u)).contains(j),
        j != u,
    ensures
        a.rank@[j as int] < a.rank@[u as int],
    decreases a.down(Some(u)),
{
    let nd = a@[u as int];
    assert(a.fits(a.nodes@[u as int], a.rank@[u as int]));
    lemma_keys_unfold(a, u);
    let su = a.inorder(Some(u));
    let sl = a.inorder(nd.left);
    let sr = a.inorder(nd.right);
    let k = choose|k: int| 0 <= k < su.len() && su[k] == j;
    if k < sl.len() {
        assert(sl[k] == j);
        let l = nd.left->0;
        if j != l {
            lemma_below_ranks(a, l, j);
        }
    } else {
        assert(k != sl.len());
        assert(sr[k - sl.len() - 1] == j);
        let r = nd.right->0;
        if j != r {
            lemma_below_ranks(a, r, j);
        }
    }
}

/// `b` is `a` with the child `n` of node `e` replaced by `w`, every other
/// node of the tree under `t` outside `n`'s subtree keeping its key and
/// children.
pub open spec fn replaced(a: BstArena, b: BstArena, t: usize, n: usize, e: usize, w: Option<usize>) -> bool {
    &&& a.wf()
    &&& b.wf()
    &&& t < a@.len()
    &&& a.inorder(Some(t)).no_duplicates()
    &&& a.inorder(Some(t)).contains(e)
    &&& (a@[e as int].left == Some(n) || a@[e as int].right == Some(n))
    &&& e < b@.len()
    &&& b@[e as int].key == a@[e as int].key
    &&& (a@[e as int].left == Some(n) ==> b@[e as int].left == w && b@[e as int].right == a@[e as int].right)
    &&& (a@[e as int].left != Some(n) ==> b@[e as int].right == w && b@[e as int].left == a@[e as int].left)
    &&& forall|j: usize|
        #[trigger] a.inorder(Some(t)).contains(j) && j != e && !a.inorder(Some(n)).contains(j) ==> {
            &&& j < b@.len()
            &&& b@[j as int].key == a@[j as int].key
            &&& b@[j as int].left == a@[j as int].left
            &&& b@[j as int].right == a@[j as int].right
        }
}

/// A subtree of the tree that avoids `e` and `n`'s subtree is unchanged.
pub proof fn lemma_side_kept(a: BstArena, b: BstArena, t: usize, n: usize, e: usize, w: Option<usize>, u: usize, side: Option<usize>)
    requires
        replaced(a, b, t, n, e, w),
        a.inorder(Some(t)).contains(u),
        u < a@.len(),
        side == a@[u as int].left || side == a@[u as int].right,
        !a.inorder(side).contains(e),
        forall|j: usize| #[trigger] a.inorder(side).contains(j) ==> !a.inorder(Some(n)).contains(j),
    ensures
        b.inorder(side) == a.inorder(side),
{
    a.lemma_inorder_facts(Some(u));
    a.lemma_inorder_facts(side);
    if let Some(q) = side {
        assert forall|j: usize| #[trigger] a.inorder(side).contains(j) implies {
            &&& j < b@.len()
            &&& j < a@.len()
            &&& b@[j as int].key == a@[j as int].key
            &&& b@[j as int].left == a@[j as int].left
            &&& b@[j as int].right == a@[j as int].right
        } by {
            lemma_sub_contains(a, t, u, j);
        }
        a.lemma_frame(b, q);
    }
}

/// The replacement seen from `e` itself.
pub proof fn lemma_replace_at(a: BstArena, b: BstArena, t: usize, n: usize, e: usize, w: Option<usize>) -> (st: int)
    requires
        replaced(a, b, t, n, e, w),
    ensures
        replace_result(a, b, e, n, w, st),
{
    let u = e;
    let nd = a@[u as int];
    a.lemma_inorder_facts(Some(t));
    assert(u < a@.len());
    assert(a.fits(a.nodes@[u as int], a.rank@[u as int]));
    lemma_keys_unfold(a, u);
    lemma_nodup_sub(a, t, u);
    let su = a.inorder(Some(u));
    let sl = a.inorder(nd.left);
    let sr = a.inorder(nd.right);
    let sn = a.inorder(Some(n));
    lemma_nodup_split(sl, u, sr);
    assert(b@[u as int].key == nd.key);
    lemma_keys_unfold(b, u);
    if nd.left == Some(n) {
        assert(sl == sn);
        lemma_side_kept(a, b, t, n, e, w, u, nd.right);
        assert(su.subrange(0, 0) =~= Seq::<usize>::empty());
        assert(su.subrange(sn.len() as int, su.len() as int) =~= seq![u] + sr);
        assert(su.subrange(0, sn.len() as int) =~= sn);
        assert(b.inorder(Some(u)) =~= su.subrange(0, 0) + b.inorder(w) + su.subrange(sn.len() as int, su.len() as int));
        0
    } else {
        assert(nd.right == Some(n));
        assert(sr == sn);
        lemma_side_kept(a, b, t, n, e, w, u, nd.left);
        let st: int = sl.len() as int + 1;
        assert(su.subrange(0, st) =~= sl + seq![u]);
        assert(su.subrange(st, st + sn.len()) =~= sn);
        assert(su.subrange(st + sn.len(), su.len() as int) =~= Seq::<usize>::empty());
        assert(b.inorder(Some(u)) =~= su.subrange(0, st) + b.inorder(w) + su.subrange(st + sn.len(), su.len() as int));
        st
    }
}

/// Replacing the child `n` of node `e` by `w` replaces, in the order of every
/// subtree holding `e`, the block of `n`'s subtree by the subtree under `w`.
/// Returns where that block starts.
pub proof fn lemma_replace(a: BstArena, b: BstArena, t: usize, u: usize, n: usize, e: usize, w: Option<usize>) -> (st: int)
    requires
        replaced(a, b, t, n, e, w),
        a.inorder(Some(t)).contains(u),
        a.inorder(Some(u)).contains(e),
    ensures
        replace_result(a, b, u, n, w, st),
    decreases a.down(Some(u)), 1int,
{
    if u == e {
        lemma_replace_at(a, b, t, n, e, w)
    } else {
        lemma_replace_below(a, b, t, u, n, e, w)
    }
}

/// What `lemma_replace` shows of the subtree under `u`.
pub open spec fn replace_result(a: BstArena, b: BstArena, u: usize, n: usize, w: Option<usize>, st: int) -> bool {
    let su = a.inorder(Some(u));
    let sn = a.inorder(Some(n));
    &&& 0 <= st
    &&& st + sn.len() <= su.len()
    &&& su.subrange(st, st + sn.len()) == sn
    &&& b.inorder(Some(u)) == su.subrange(0, st) + b.inorder(w) + su.subrange(st + sn.len(), su.len() as int)
}

/// Facts about a node `u` strictly above `e`.
proof fn lemma_replace_prep(a: BstArena, b: BstArena, t: usize, u: usize, n: usize, e: usize, w: Option<usize>)
    requires
        replaced(a, b, t, n, e, w),
        a.inorder(Some(t)).contains(u),
        a.inorder(Some(u)).contains(e),
        u != e,
    ensures
        u < a@.len(),
        a.inorder(Some(u)).no_duplicates(),
        a.inorder(Some(u)) == a.inorder(a@[u as int].left) + seq![u] + a.inorder(a@[u as int].right),
        b.inorder(Some(u)) == b.inorder(a@[u as int].left) + seq![u] + b.inorder(a@[u as int].right),
        a.inorder(a@[u as int].left).contains(e) || a.inorder(a@[u as int].right).contains(e),
        a@[u as int].left matches Some(l) ==> a.inorder(Some(t)).contains(l) && a.down(Some(l)) < a.down(Some(u)),
        a@[u as int].right matches Some(r) ==> a.inorder(Some(t)).contains(r) && a.down(Some(r)) < a.down(Some(u)),
        a.inorder(a@[u as int].left).contains(e) ==> (forall|j: usize| #[trigger] a.inorder(Some(n)).contains(j) ==> a.inorder(a@[u as int].left).contains(j)),
        a.inorder(a@[u as int].right).contains(e) ==> (forall|j: usize| #[trigger] a.inorder(Some(n)).contains(j) ==> a.inorder(a@[u as int].right).contains(j)),
        !a.inorder(a@[u as int].left).contains(u),
        !a.inorder(a@[u as int].right).contains(u),
        forall|j: usize| #[trigger] a.inorder(a@[u as int].left).contains(j) ==> !a.inorder(a@[u as int].right).contains(j),
{
    let nd = a@[u as int];
    a.lemma_inorder_facts(Some(t));
    a.lemma_inorder_facts(Some(u));
    assert(a.fits(a.nodes@[u as int], a.rank@[u as int]));
    lemma_keys_unfold(a, u);
    lemma_nodup_sub(a, t, u);
    let su = a.inorder(Some(u));
    let sl = a.inorder(nd.left);
    let sr = a.inorder(nd.right);
    let sn = a.inorder(Some(n));
    lemma_nodup_split(sl, u, sr);
    a.lemma_inorder_facts(nd.left);
    a.lemma_inorder_facts(nd.right);
    assert(a.fits(a.nodes@[e as int], a.rank@[e as int]));
    a.lemma_inorder_facts(Some(e));
    a.lemma_inorder_facts(Some(n));
    assert(a.inorder(Some(e)).contains(n));
    lemma_sub_contains(a, u, e, n);
    assert(!sn.contains(u)) by {
        if sn.contains(u) {
            if u != n {
                lemma_below_ranks(a, u, n);
                lemma_below_ranks(a, n, u);
            } else {
                lemma_below_ranks(a, u, e);
            }
        }
    }
    assert(b@[u as int].key == nd.key && b@[u as int].left == nd.left && b@[u as int].right == nd.right);
    lemma_keys_unfold(b, u);
    let k = choose|k: int| 0 <= k < su.len() && su[k] == e;
    if k < sl.len() {
        assert(sl[k] == e);
        let l = nd.left->0;
        lemma_sub_contains(a, l, e, n);
        assert forall|j: usize| #[trigger] sn.contains(j) implies sl.contains(j) by {
            lemma_sub_contains(a, l, n, j);
        }
    } else {
        assert(k != sl.len());
        assert(sr[k - sl.len() - 1] == e);
        let r = nd.right->0;
        lemma_sub_contains(a, r, e, n);
        assert forall|j: usize| #[trigger] sn.contains(j) implies sr.contains(j) by {
            lemma_sub_contains(a, r, n, j);
        }
    }
    if let Some(l) = nd.left {
        lemma_sub_contains(a, t, u, l);
    }
    if let Some(r) = nd.right {
        lemma_sub_contains(a, t, u, r);
    }
    if sl.contains(e) && sr.contains(e) {
        assert(false);
    }
}

/// The replacement seen from a node strictly above `e`.
#[verifier::spinoff_prover]
#[verifier::rlimit(60)]
pub proof fn lemma_replace_below(a: BstArena, b: BstArena, t: usize, u: usize, n: usize, e: usize, w: Option<usize>) -> (st: int)
    requires
        replaced(a, b, t, n, e, w),
        a.inorder(Some(t)).contains(u),
        a.inorder(Some(u)).contains(e),
        u != e,
    ensures
        replace_result(a, b, u, n, w, st),
    decreases a.down(Some(u)), 0int,
{
    lemma_replace_prep(a, b, t, u, n, e, w);
    let nd = a@[u as int];
    let su = a.inorder(Some(u));
    let sl = a.inorder(nd.left);
    let sr = a.inorder(nd.right);
    let sn = a.inorder(Some(n));
    if sl.contains(e) {
        let l = nd.left->0;
        assert(sl.contains(l)) by { a.lemma_inorder_facts(nd.left); }
        lemma_side_kept(a, b, t, n, e, w, u, nd.right);
        let st0 = lemma_replace(a, b, t, l, n, e, w);
        assert(su.subrange(0, st0) =~= sl.subrange(0, st0));
        assert(su.subrange(st0, st0 + sn.len()) =~= sl.subrange(st0, st0 + sn.len()));
        assert(su.subrange(st0 + sn.len(), su.len() as int) =~= sl.subrange(st0 + sn.len(), sl.len() as int) + seq![u] + sr);
        assert(b.inorder(Some(u)) =~= su.subrange(0, st0) + b.inorder(w) + su.subrange(st0 + sn.len(), su.len() as int));
        st0
    } else {
        let r = nd.right->0;
        lemma_side_kept(a, b, t, n, e, w, u, nd.left);
        let st0 = lemma_replace(a, b, t, r, n, e, w);
        let off: int = sl.len() as int + 1;
        assert(su.subrange(0, off + st0) =~= sl + seq![u] + sr.subrange(0, st0));
        assert(su.subrange(off + st0, off + st0 + sn.len()) =~= sr.subrange(st0, st0 + sn.len()));
        assert(su.subrange(off + st0 + sn.len(), su.len() as int) =~= sr.subrange(st0 + sn.len(), sr.len() as int));
        assert(b.inorder(Some(u)) =~= su.subrange(0, off + st0) + b.inorder(w) + su.subrange(off + st0 + sn.len(), su.len() as int));
        off + st0
    }
}


/// When every key is present and `minimum` does not stop at `u`, the node it
/// stops at has no left child and is the left child of a node of the subtree.
pub proof fn lemma_leftmost_left_child(a: BstArena, u: usize) -> (q: usize)
    requires
        a.wf(),
        u < a@.len(),
        forall|j: int| 0 <= j < a.keys(Some(u)).len() ==> (#[trigger] a.keys(Some(u))[j]) is Some,
        a.leftmost(u) != u,
    ensures
        a.inorder(Some(u)).contains(q),
        a@[q as int].left == Some(a.leftmost(u)),
        a@[a.leftmost(u) as int].left is None,
    decreases a.down(Some(u)),
{
    let nd = a@[u as int];
    assert(a.fits(a.nodes@[u as int], a.rank@[u as int]));
    lemma_keys_unfold(a, u);
    a.lemma_inorder_facts(Some(u));
    let ks = a.keys(Some(u));
    let l = nd.left->0;
    lemma_keys_unfold(a, l);
    a.lemma_inorder_facts(Some(l));
    assert forall|j: int| 0 <= j < a.keys(Some(l)).len() implies (#[trigger] a.keys(Some(l))[j]) is Some by {
        assert(ks[j] == a.keys(Some(l))[j]);
    }
    lemma_extremes(a, l);
    let ln = a@[l as int];
    assert(a.keys(Some(l))[a.inorder(ln.left).len() as int] == ln.key);
    if a.leftmost(l) == l {
        assert(ln.left is None) by {
            if let Some(ll) = ln.left {
                assert(a.fits(a.nodes@[l as int], a.rank@[l as int]));
                a.lemma_leftmost_facts(ll);
            }
        }
        u
    } else {
        let q = lemma_leftmost_left_child(a, l);
        lemma_sub_contains(a, u, l, q);
        q
    }
}











/// After `tree_insert(Some(c), z)` on a sorted subtree without repeated nodes,
/// `tree_search(z)` on node `c` finds a node holding `z`.
pub proof fn lemma_insert_then_search(a: BstArena, b: BstArena, c: usize, z: i32)
    requires
        a.wf(),
        b.wf(),
        c < a@.len(),
        a@.len() < usize::MAX,
        a.insert_path_ok(c, z),
        b@ == a.inserted(c, z),
        a.inorder(Some(c)).no_duplicates(),
        sorted_keys(a.keys(Some(c))),
    ensures
        b.search_node(b@[c as int], z) matches Some(f) && f.key == Some(z),
{
    lemma_insert_sorted(a, b, c, z);
    lemma_spot_facts(a, c, z);
    assert(b@.len() == a@.len() + 1);
    let kb = b.keys(Some(c));
    assert(kb.to_multiset().count(Some(z)) > 0) by {
        broadcast use vstd::multiset::group_multiset_axioms;
    }
    assert(kb.contains(Some(z))) by {
        broadcast use vstd::seq_lib::to_multiset_contains;
    }
    lemma_keys_unfold(b, c);
    assert(b.fits(b.nodes@[c as int], b.rank@[c as int]));
    lemma_search_node_correct(b, b@[c as int], z);
}



/// Keys that strictly increase are pairwise different.
pub proof fn lemma_strict_no_dups(s: Seq<Option<i32>>)
    requires
        strictly_sorted_keys(s),
    ensures
        s.no_duplicates(),
{
    assert forall|i: int, j: int| 0 <= i < s.len() && 0 <= j < s.len() && i != j implies s[i] != s[j] by {
        if i < j {
            assert(s[i]->0 < s[j]->0);
        } else {
            assert(s[j]->0 < s[i]->0);
        }
    }
}

/// Sorted keys that are pairwise different strictly increase.
pub proof fn lemma_sorted_no_dups_strict(s: Seq<Option<i32>>)
    requires
        sorted_keys(s),
        s.no_duplicates(),
    ensures
        strictly_sorted_keys(s),
{
    assert forall|i: int, j: int| 0 <= i < j < s.len() implies (#[trigger] s[i])->0 < (#[trigger] s[j])->0 by {
        assert(s[i] is Some && s[j] is Some);
        assert(s[i] != s[j]);
    }
}

/// Where every key of a subtree is present, `tree_insert` never meets a
/// node without a key.
pub proof fn lemma_present_keys_path_ok(a: BstArena, i: usize, z: i32)
    requires
        a.wf(),
        i < a@.len(),
        forall|j: int| 0 <= j < a.keys(Some(i)).len() ==> (#[trigger] a.keys(Some(i))[j]) is Some,
    ensures
        a.insert_path_ok(i, z),
    decreases a.down(Some(i)),
{
    let nd = a@[i as int];
    lemma_keys_unfold(a, i);
    let kl = a.keys(nd.left);
    let kr = a.keys(nd.right);
    let ks = a.keys(Some(i));
    assert(ks[kl.len() as int] == nd.key);
    assert(a.fits(a.nodes@[i as int], a.rank@[i as int]));
    if let Some(l) = nd.left {
        assert forall|j: int| 0 <= j < a.keys(Some(l)).len() implies (#[trigger] a.keys(Some(l))[j]) is Some by {
            assert(ks[j] == kl[j]);
        }
        lemma_present_keys_path_ok(a, l, z);
    }
    if let Some(r) = nd.right {
        assert forall|j: int| 0 <= j < a.keys(Some(r)).len() implies (#[trigger] a.keys(Some(r))[j]) is Some by {
            assert(ks[kl.len() + 1 + j] == kr[j]);
        }
        lemma_present_keys_path_ok(a, r, z);
    }
}

/// `tree_insert` of any key (a repeated one too), called on the top of a
/// linked tree whose keys are sorted, leaves a linked tree with the same top
/// and sorted keys.
pub proof fn lemma_insert_keeps_linked(a: BstArena, b: BstArena, t: usize, z: i32)
    requires
        a.wf(),
        b.wf(),
        a@.len() < usize::MAX,
        a.linked_tree(t),
        sorted_keys(a.keys(Some(t))),
        b@ == a.inserted(t, z),
    ensures
        a.insert_path_ok(t, z),
        b.linked_tree(t),
        sorted_keys(b.keys(Some(t))),
        b.keys(Some(t)).to_multiset() == a.keys(Some(t)).to_multiset().insert(Some(z)),
{
    let sa = a.inorder(Some(t));
    lemma_present_keys_path_ok(a, t, z);
    let x = a@.len() as usize;
    let (p, gr) = a.insert_spot(t, z);
    lemma_spot_facts(a, t, z);
    lemma_insert_sorted(a, b, t, z);
    a.lemma_inorder_facts(Some(t));
    let pn = a@[p as int];
    assert(a.fits(pn, a.rank@[p as int]));
    assert(b@.len() == x + 1);
    assert(b@[x as int] == fresh_node(z, Some(p)));
    assert(gr ==> b@[p as int] == with_right(pn, Some(x)));
    assert(!gr ==> b@[p as int] == with_left(pn, Some(x)));
    assert(forall|k: int| 0 <= k < a@.len() && k != p ==> #[trigger] b@[k] == a@[k]);
    assert(b@[t as int].parent == a@[t as int].parent);
    // every node of the new tree names its children's parent
    let sb = b.inorder(Some(t));
    assert forall|j: usize| #[trigger] sb.contains(j) implies {
        &&& (b@[j as int].left matches Some(c) ==> b@[c as int].parent == Some(j))
        &&& (b@[j as int].right matches Some(c) ==> b@[c as int].parent == Some(j))
    } by {
        broadcast use vstd::seq_lib::group_to_multiset_ensures;
        broadcast use vstd::multiset::group_multiset_axioms;
        assert(sb.to_multiset().count(j) > 0);
        if j != x {
            assert(sa.to_multiset().count(j) > 0);
            assert(sa.contains(j));
            assert(j < a@.len());
            let nj = a@[j as int];
            assert(a.fits(nj, a.rank@[j as int]));
            if let Some(c) = nj.left {
                assert(c != j);
                if c != p {
                    assert(b@[c as int] == a@[c as int]);
                }
            }
            if let Some(c) = nj.right {
                assert(c != j);
                if c != p {
                    assert(b@[c as int] == a@[c as int]);
                }
            }
        }
    }
}

/// `tree_insert` of a key that is not yet there, called on the top of a
/// linked search tree, leaves a linked search tree with the same top.
pub proof fn lemma_insert_keeps_search_tree(a: BstArena, b: BstArena, t: usize, z: i32)
    requires
        a.wf(),
        b.wf(),
        a@.len() < usize::MAX,
        a.linked_search_tree(t),
        !a.keys(Some(t)).contains(Some(z)),
        b@ == a.inserted(t, z),
    ensures
        a.insert_path_ok(t, z),
        b.linked_search_tree(t),
{
    let ka = a.keys(Some(t));
    assert(sorted_keys(ka));
    lemma_insert_keeps_linked(a, b, t, z);
    // the keys stay pairwise different
    let kb = b.keys(Some(t));
    lemma_strict_no_dups(ka);
    assert(kb.no_duplicates()) by {
        broadcast use vstd::seq_lib::group_to_multiset_ensures;
        broadcast use vstd::multiset::group_multiset_axioms;
        ka.lemma_multiset_has_no_duplicates();
        assert(ka.to_multiset().count(Some(z)) == 0);
        assert forall|v: Option<i32>| kb.to_multiset().contains(v) implies kb.to_multiset().count(v) == 1 by {
            if v == Some(z) {
                assert(kb.to_multiset().count(v) == ka.to_multiset().count(v) + 1);
            } else {
                assert(kb.to_multiset().count(v) == ka.to_multiset().count(v));
                assert(ka.to_multiset().contains(v));
            }
        }
        kb.lemma_multiset_has_no_duplicates_conv();
    }
    lemma_sorted_no_dups_strict(kb);
}

/// Removing one key from strictly increasing keys leaves them strictly
/// increasing.
pub proof fn lemma_strict_remove(ka: Seq<Option<i32>>, i: int)
    requires
        strictly_sorted_keys(ka),
        0 <= i < ka.len(),
    ensures
        strictly_sorted_keys(ka.remove(i)),
{
    let kb = ka.remove(i);
    assert forall|x: int| 0 <= x < kb.len() implies (#[trigger] kb[x]) is Some by {
        if x < i { assert(kb[x] == ka[x]); } else { assert(kb[x] == ka[x + 1]); }
    }
    assert forall|x: int, y: int| 0 <= x < y < kb.len() implies (#[trigger] kb[x])->0 < (#[trigger] kb[y])->0 by {
        let x1 = if x < i { x } else { x + 1 };
        let y1 = if y < i { y } else { y + 1 };
        assert(kb[x] == ka[x1] && kb[y] == ka[y1]);
    }
}




/// In a tree without repeated nodes, the last node of the left subtree of
/// `x` comes right before `x` in order.
pub proof fn lemma_predecessor_law(a: BstArena, t: usize, x: usize, i: int)
    requires
        a.wf(),
        t < a@.len(),
        a.inorder(Some(t)).no_duplicates(),
        0 <= i < a.inorder(Some(t)).len(),
        a.inorder(Some(t))[i] == x,
        a@[x as int].left is Some,
    ensures
        i > 0,
        a.inorder(Some(t))[i - 1] == a.inorder(a@[x as int].left).last(),
{
    let s = a.inorder(Some(t));
    a.lemma_inorder_facts(Some(t));
    assert(s.contains(x));
    let nd = a@[x as int];
    assert(a.fits(a.nodes@[x as int], a.rank@[x as int]));
    lemma_keys_unfold(a, x);
    let sx = a.inorder(Some(x));
    let sl = a.inorder(nd.left);
    a.lemma_inorder_facts(nd.left);
    assert(sl.len() > 0);
    let st = lemma_block(a, t, x);
    assert(s.subrange(st, st + sx.len()) == sx);
    assert(s[st + sl.len()] == sx[sl.len() as int]);
    assert(sx[sl.len() as int] == x);
    assert(i == st + sl.len()) by {
        if i != st + sl.len() {
            assert(s[i] == s[st + sl.len()]);
        }
    }
    assert(s[i - 1] == sx[sl.len() - 1]);
    assert(sx[sl.len() - 1] == sl[sl.len() - 1]);
}

/// Following parent links from any node of a linked search tree leads to
/// its top.
pub proof fn lemma_root_of_tree_node(a: BstArena, t: usize, p: usize)
    requires
        a.wf(),
        a.linked_tree(t),
        a.inorder(Some(t)).contains(p),
    ensures
        a.root_of(p) == t,
    decreases a.up(p),
{
    a.lemma_inorder_facts(Some(t));
    assert(a.fits(a.nodes@[p as int], a.rank@[p as int]));
    if p != t {
        let e = lemma_tree_parent(a, t, t, p);
        assert(a.rank@[e as int] <= a.ceil@);
        lemma_root_of_tree_node(a, t, e);
    }
}

/// Where `add_node` hangs the new node `x` under a node `nd`: as left child
/// exactly when `nd` holds a key above `value` and has no left child, and as
/// right child otherwise; the rest of `nd` is kept.
pub proof fn lemma_attach_side(nd: BstNode, value: i32, x: usize)
    requires
        BstArena::attachable(nd, value),
    ensures
        ({
            let na = BstArena::attach(nd, value, x);
            &&& na.key == nd.key
            &&& na.parent == nd.parent
            &&& (nd.key is Some && value < nd.key->0 && nd.left is None) ==> na.left == Some(x) && na.right == nd.right
            &&& !(nd.key is Some && value < nd.key->0 && nd.left is None) ==> nd.right is None && na.right == Some(x)
                && na.left == nd.left
        }),
{
}

/// `tree_predecessor` never returns the node it was given; it returns
/// nothing for a node without a left child, and otherwise a node of the left
/// subtree, whose key is below the node's key when the keys under the node
/// strictly increase.
pub proof fn lemma_predecessor_facts(a: BstArena, x: usize)
    requires
        a.wf(),
        x < a@.len(),
    ensures
        a.pred_of(Some(x)) != Some(x),
        a@[x as int].left is None ==> a.pred_of(Some(x)) is None,
        a.pred_of(Some(x)) matches Some(p) ==> a.inorder(a@[x as int].left).contains(p) && p < a@.len(),
        a.pred_of(Some(x)) matches Some(p) ==> (strictly_sorted_keys(a.keys(Some(x))) ==> a@[p as int].key->0 < a@[x as int].key->0),
{
    let nd = a@[x as int];
    assert(a.fits(a.nodes@[x as int], a.rank@[x as int]));
    if let Some(l) = nd.left {
        lemma_last_right(a, l);
        a.lemma_inorder_facts(Some(l));
        let sl = a.inorder(Some(l));
        assert(sl.contains(l));
        let p = sl.last();
        assert(sl.contains(p));
        if p != l {
            lemma_below_ranks(a, l, p);
        }
        assert(p != x);
        lemma_keys_unfold(a, x);
        let ks = a.keys(Some(x));
        let kl = a.keys(Some(l));
        assert(kl[sl.len() - 1] == a@[p as int].key);
        assert(ks[sl.len() - 1] == kl[sl.len() - 1]);
        assert(ks[kl.len() as int] == nd.key);
        if strictly_sorted_keys(ks) {
            assert(ks[sl.len() - 1]->0 < ks[kl.len() as int]->0);
        }
    }
}

} // verus!
