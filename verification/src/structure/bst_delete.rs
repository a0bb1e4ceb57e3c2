use vstd::prelude::*;
use crate::structure::bst::{BstArena, BstNode, sorted_keys, strictly_sorted_keys, transplanted, set_left, set_right, set_parent, with_parent};
use crate::structure::bst_laws::{lemma_keys_unfold, lemma_block, lemma_tree_parent, lemma_successor_law, lemma_nodup_split, lemma_nodup_sub, lemma_sub_contains, lemma_below_ranks, lemma_extremes, lemma_leftmost_left_child, lemma_strict_remove, lemma_search_node_correct, replaced, lemma_replace};

verus! {

/// The walk up of `tree_successor_simpler` from `w`, where `x` is the last
/// node of the subtree under `w`, finds the node after `x` in order, or
/// nothing when `x` is the last node of the tree.
pub proof fn lemma_up_walk(a: BstArena, t: usize, w: usize, x: usize, i: int)
    requires
        a.wf(),
        a.linked_tree(t),
        a.inorder(Some(t)).contains(w),
        a.inorder(Some(w)).last() == x,
        0 <= i < a.inorder(Some(t)).len(),
        a.inorder(Some(t))[i] == x,
    ensures
        a.up_walk(w) == (if i + 1 < a.inorder(Some(t)).len() {
            Some(a.inorder(Some(t))[i + 1])
        } else {
            None
        }),
    decreases a.up(w),
{
    let s = a.inorder(Some(t));
    a.lemma_inorder_facts(Some(t));
    a.lemma_inorder_facts(Some(w));
    assert(a.fits(a.nodes@[w as int], a.rank@[w as int]));
    if w == t {
        assert(s.last() == x);
        assert(s[s.len() - 1] == x);
        assert(i == s.len() - 1);
    } else {
        let e = lemma_tree_parent(a, t, t, w);
        assert(a.fits(a.nodes@[e as int], a.rank@[e as int]));
        assert(a.rank@[e as int] <= a.ceil@);
        let en = a@[e as int];
        assert(!a.nil_link(Some(e)));
        lemma_keys_unfold(a, e);
        a.lemma_inorder_facts(Some(e));
        let se = a.inorder(Some(e));
        let sl = a.inorder(en.left);
        let sr = a.inorder(en.right);
        let st = lemma_block(a, t, e);
        assert(s.subrange(st, st + se.len()) == se);
        lemma_nodup_sub(a, t, e);
        lemma_nodup_split(sl, e, sr);
        if en.right == Some(w) {
            assert(sr.len() > 0);
            assert(se.last() == sr.last());
            lemma_up_walk(a, t, e, x, i);
        } else {
            assert(en.left == Some(w));
            // x is the last node of the left subtree of e, so e comes right after it
            let k = st + sl.len() - 1;
            assert(sl.len() > 0);
            assert(s[k] == se[sl.len() - 1]);
            assert(se[sl.len() - 1] == sl.last());
            assert(s[k] == x);
            assert(s[st + sl.len()] == se[sl.len() as int]);
            assert(se[sl.len() as int] == e);
            assert(i == k) by {
                if i != k {
                    assert(s[i] == s[k]);
                }
            }
            assert(a.up_walk(w) == Some(e));
        }
    }
}

/// The law of `tree_successor_simpler` on a linked search tree: it finds the
/// node right after `x` in key order, or a copy of it, and nothing after the
/// greatest key.
pub proof fn lemma_simpler_law(a0: BstArena, a: BstArena, x: usize, r: Option<usize>)
    requires
        a0.wf(),
        x < a0@.len(),
        a@.len() <= usize::MAX,
        if !a0.nil_link(a0@[x as int].right) {
            a@ == a0@.push(a0.min_node(a0@[a0@[x as int].right->0 as int])) && r == Some(a0@.len() as usize)
        } else {
            a@ == a0@ && r == a0.up_walk(x)
        },
    ensures
        forall|t: usize, i: int|
            #![trigger a0.linked_search_tree(t), a0.inorder(Some(t))[i]]
            a0.linked_search_tree(t) && 0 <= i < a0.inorder(Some(t)).len() && a0.inorder(Some(t))[i] == x
                ==> BstArena::successor_found(a0, a, t, i, r),
{
    assert forall|t: usize, i: int|
        #![trigger a0.linked_search_tree(t), a0.inorder(Some(t))[i]]
        a0.linked_search_tree(t) && 0 <= i < a0.inorder(Some(t)).len() && a0.inorder(Some(t))[i] == x
            implies BstArena::successor_found(a0, a, t, i, r) by {
        lemma_successor_law(a0, t, x, i);
        a0.lemma_inorder_facts(Some(t));
        let s = a0.inorder(Some(t));
        assert(s.contains(x));
        if i + 1 < s.len() {
            assert(s.contains(s[i + 1]));
        }
        match a0@[x as int].right {
            Some(rt) => {
                assert(a0@[rt as int].parent == Some(x));
            },
            None => {
                a0.lemma_inorder_facts(Some(x));
                lemma_keys_unfold(a0, x);
                assert(a0.inorder(Some(x)).last() == x);
                lemma_up_walk(a0, t, x, x, i);
            },
        }
    }
}

/// What `tree_delete` leaves of a linked search tree: the tree under `top`
/// holds the old in-order keys without the one at position `i`, and is a
/// linked search tree itself when present.
pub open spec fn delete_leaves(a: BstArena, b: BstArena, t: usize, i: int, top: Option<usize>) -> bool {
    &&& b.keys(top) == a.keys(Some(t)).remove(i)
    &&& (top matches Some(u) ==> b.linked_search_tree(u))
}

/// From the new order of nodes to what `tree_delete` leaves, given that old
/// nodes keep their keys and every child in the new tree names its parent.
proof fn lemma_leaves_from_order(a: BstArena, b: BstArena, t: usize, i: int, top: Option<usize>, bs: Seq<usize>)
    requires
        a.wf(),
        b.wf(),
        a.linked_search_tree(t),
        0 <= i < a.inorder(Some(t)).len(),
        a@.len() <= b@.len(),
        forall|k: int| 0 <= k < a@.len() ==> (#[trigger] b@[k]).key == a@[k].key,
        b.inorder(top) == bs,
        bs.no_duplicates(),
        bs.len() + 1 == a.inorder(Some(t)).len(),
        forall|k: int| 0 <= k < bs.len() && k != i ==> #[trigger] bs[k] == a.inorder(Some(t)).remove(i)[k],
        i < bs.len() ==> b@[bs[i] as int].key == a.keys(Some(t)).remove(i)[i],
        top matches Some(u) ==> u < b@.len() && b@[u as int].parent is None,
        forall|j: usize| #[trigger] bs.contains(j) ==> {
            &&& (b@[j as int].left matches Some(c) ==> b@[c as int].parent == Some(j))
            &&& (b@[j as int].right matches Some(c) ==> b@[c as int].parent == Some(j))
        },
    ensures
        delete_leaves(a, b, t, i, top),
{
    let s = a.inorder(Some(t));
    let ka = a.keys(Some(t));
    a.lemma_inorder_facts(Some(t));
    let kb = b.keys(top);
    assert forall|k: int| 0 <= k < kb.len() implies #[trigger] kb[k] == ka.remove(i)[k] by {
        if k != i {
            let j = if k < i { k } else { k + 1 };
            assert(bs[k] == s[j]);
            assert(s.contains(s[j]));
        }
    }
    assert(kb =~= ka.remove(i));
    lemma_strict_remove(ka, i);
}

/// The law of `tree_delete` for a node missing a child.
#[verifier::spinoff_prover]
#[verifier::rlimit(80)]
proof fn lemma_delete_one_law(a: BstArena, b: BstArena, t: usize, n: usize, i: int)
    requires
        a.wf(),
        b.wf(),
        a.linked_search_tree(t),
        0 <= i < a.inorder(Some(t)).len(),
        a.inorder(Some(t))[i] == n,
        a@[n as int].left is None || a@[n as int].right is None,
        b@ == a.deleted(n),
    ensures
        delete_leaves(a, b, t, i, if n == t { a.delete_result(n) } else { Some(t) }),
{
    let s = a.inorder(Some(t));
    a.lemma_inorder_facts(Some(t));
    assert(s.contains(n));
    let nd = a@[n as int];
    assert(a.fits(a.nodes@[n as int], a.rank@[n as int]));
    let w = a.delete_result(n);
    let p = nd.parent;
    assert(b@ == transplanted(a@, n, w));
    lemma_keys_unfold(a, n);
    a.lemma_inorder_facts(Some(n));
    a.lemma_inorder_facts(w);
    let sn = a.inorder(Some(n));
    let sw = a.inorder(w);
    if nd.left is None {
        assert(sn == seq![n] + sw);
    } else {
        assert(sn == sw + seq![n]);
    }
    lemma_nodup_sub(a, t, n);
    // what transplant changes
    assert(b@.len() == a@.len());
    if let Some(x) = w {
        assert(a@[x as int].parent == Some(n));
        assert(x != n);
    }
    if let Some(e) = p {
        assert(a.fits(a.nodes@[e as int], a.rank@[e as int]));
        if let Some(x) = w {
            assert(a.rank@[x as int] < a.rank@[n as int]);
            assert(x != e);
        }
        assert(b@[e as int].key == a@[e as int].key && b@[e as int].parent == a@[e as int].parent);
        assert(a@[e as int].left == Some(n) ==> b@[e as int].left == w && b@[e as int].right == a@[e as int].right);
        assert(a@[e as int].left != Some(n) ==> b@[e as int].right == w && b@[e as int].left == a@[e as int].left);
    }
    if let Some(x) = w {
        assert(b@[x as int] == with_parent(a@[x as int], p));
    }
    assert(forall|k: int| 0 <= k < a@.len() && Some(k as usize) != p && Some(k as usize) != w ==> #[trigger] b@[k] == a@[k]);
    assert forall|k: int| 0 <= k < a@.len() implies (#[trigger] b@[k]).key == a@[k].key by {}
    // the subtree of the remaining child is untouched but for the child's parent
    if let Some(x) = w {
        assert forall|k: usize| #[trigger] sw.contains(k) implies {
            &&& k < b@.len()
            &&& k < a@.len()
            &&& b@[k as int].key == a@[k as int].key
            &&& b@[k as int].left == a@[k as int].left
            &&& b@[k as int].right == a@[k as int].right
        } by {
            if let Some(e) = p {
                if k == e {
                    assert(sn.contains(k));
                    lemma_below_ranks(a, n, k);
                }
            }
        }
        a.lemma_frame(b, x);
    }
    assert(b.inorder(w) == sw) by {
        if w is None {
            b.lemma_inorder_facts(w);
            assert(b.inorder(w) =~= Seq::<usize>::empty());
            assert(sw =~= Seq::<usize>::empty());
        }
    }
    let top = if n == t { w } else { Some(t) };
    let bs = s.remove(i);
    let off: int = if nd.left is None { 1 } else { 0 };
    assert forall|k: int| 0 <= k < sw.len() implies #[trigger] sw[k] == sn[k + off] by {}
    if n != t {
        let e = lemma_tree_parent(a, t, t, n);
        assert(p == Some(e));
        assert forall|j: usize|
            #[trigger] s.contains(j) && j != e && !sn.contains(j) implies {
                &&& j < b@.len()
                &&& b@[j as int].key == a@[j as int].key
                &&& b@[j as int].left == a@[j as int].left
                &&& b@[j as int].right == a@[j as int].right
            } by {
            if let Some(x) = w {
                if j == x {
                    assert(sw.contains(x));
                    let q = choose|q: int| 0 <= q < sw.len() && sw[q] == x;
                    assert(sn[q + off] == x);
                }
            }
        }
        assert(replaced(a, b, t, n, e, w));
        let st = lemma_replace(a, b, t, t, n, e, w);
        let bt = b.inorder(Some(t));
        assert(bt == s.subrange(0, st) + sw + s.subrange(st + sn.len(), s.len() as int));
        let pos = if nd.left is None { st } else { st + sw.len() };
        assert(sn[pos - st] == n);
        assert(s.subrange(st, st + sn.len())[pos - st] == s[pos]);
        assert(i == pos) by {
            if i != pos {
                assert(s[i] == s[pos]);
            }
        }
        assert forall|k: int| 0 <= k < sn.len() implies #[trigger] s[st + k] == sn[k] by {
            assert(s.subrange(st, st + sn.len())[k] == s[st + k]);
        }
        assert forall|k: int| 0 <= k < bt.len() implies #[trigger] bt[k] == bs[k] by {
            if k < st {
            } else if k < st + sw.len() {
                assert(bt[k] == sw[k - st]);
                assert(s[st + (k - st + off)] == sn[k - st + off]);
            } else {
                assert(bt[k] == s[k + 1]);
            }
        }
        assert(bt =~= bs);
    } else {
        assert(s == sn);
        let pos = if nd.left is None { 0int } else { sw.len() as int };
        assert(sn[pos] == n);
        assert(i == pos) by {
            if i != pos {
                assert(s[i] == s[pos]);
            }
        }
        assert(sw =~= bs);
    }
    assert(b.inorder(top) == bs);
    assert(bs.no_duplicates()) by {
        assert forall|x: int, y: int| 0 <= x < bs.len() && 0 <= y < bs.len() && x != y implies bs[x] != bs[y] by {
            let x1 = if x < i { x } else { x + 1 };
            let y1 = if y < i { y } else { y + 1 };
            assert(bs[x] == s[x1] && bs[y] == s[y1]);
        }
    }
    if i < bs.len() {
        assert(bs[i] == s[i + 1]);
        assert(s.contains(s[i + 1]));
    }
    if let Some(u) = top {
        if n != t {
            assert(a@[t as int].parent is None);
            if let Some(x) = w {
                assert(x != t);
            }
        }
    }
    assert forall|j: usize| #[trigger] bs.contains(j) implies {
        &&& (b@[j as int].left matches Some(c) ==> b@[c as int].parent == Some(j))
        &&& (b@[j as int].right matches Some(c) ==> b@[c as int].parent == Some(j))
    } by {
        let x = choose|x: int| 0 <= x < bs.len() && bs[x] == j;
        let x1 = if x < i { x } else { x + 1 };
        assert(bs[x] == s[x1]);
        assert(s.contains(j));
        assert(j != n) by {
            assert(s[x1] != s[i]);
        }
        assert(a.fits(a.nodes@[j as int], a.rank@[j as int]));
        if let Some(c) = a@[j as int].left {
            assert(a@[c as int].parent == Some(j));
        }
        if let Some(c) = a@[j as int].right {
            assert(a@[c as int].parent == Some(j));
        }
    }
    lemma_leaves_from_order(a, b, t, i, top, bs);
}


/// What `tree_delete` does, node by node, to a node `n` of a linked search
/// tree that has both children `l` and `rt`, with `m` the least node of the
/// right subtree, `mr` its right child and `e` the parent of `n`.
#[verifier::spinoff_prover]
#[verifier::rlimit(100)]
proof fn lemma_delete_two_shape(a: BstArena, b: BstArena, n: usize, q: usize)
    requires
        a.wf(),
        b@ == a.deleted(n),
        n < a@.len(),
        a@.len() < usize::MAX,
        a@[n as int].left is Some,
        a@[n as int].right is Some,
        ({
            let nd = a@[n as int];
            let l = nd.left->0;
            let rt = nd.right->0;
            let m = a.leftmost(rt);
            let mn = a@[m as int];
            &&& m < a@.len()
            &&& a.rank@[m as int] <= a.rank@[rt as int]
            &&& (m == rt <==> mn.parent == Some(n))
            &&& (m != rt ==> mn.parent == Some(q) && q < a@.len() && a@[q as int].left == Some(m) && q != l && q != n && nd.parent != Some(q))
            &&& l != rt && l != m && (mn.right matches Some(x) ==> x != l)
        }),
    ensures
        ({
            let nd = a@[n as int];
            let l = nd.left->0;
            let rt = nd.right->0;
            let m = a.leftmost(rt);
            let mn = a@[m as int];
            let mr = mn.right;
            let e = nd.parent;
            let c = a@.len() as usize;
            &&& b@.len() == a@.len() + 1
            &&& b@[c as int] == BstNode { key: mn.key, parent: e, left: Some(l), right: if m == rt { mr } else { Some(rt) } }
            &&& forall|k: int| 0 <= k < a@.len() ==> (#[trigger] b@[k]).key == a@[k].key
            &&& forall|k: int|
                0 <= k < a@.len() && Some(k as usize) != e && (m != rt ==> k != q) ==> (#[trigger] b@[k]).left == a@[k].left
                    && b@[k].right == a@[k].right
            &&& forall|k: int|
                0 <= k < a@.len() && k != l && Some(k as usize) != mr && (m != rt ==> k != rt) ==> (#[trigger] b@[k]).parent
                    == a@[k].parent
            &&& b@[l as int].parent == Some(c)
            &&& (m == rt ==> (mr matches Some(x) ==> b@[x as int].parent == Some(c)))
            &&& (m != rt ==> b@[rt as int].parent == Some(c) && b@[q as int].left == mr && b@[q as int].right == a@[q as int].right)
            &&& (m != rt ==> (mr matches Some(x) ==> b@[x as int].parent == Some(q)))
            &&& (e matches Some(ee) ==> (a@[ee as int].left == Some(n) ==> b@[ee as int].left == Some(c) && b@[ee as int].right == a@[ee as int].right))
            &&& (e matches Some(ee) ==> (a@[ee as int].left != Some(n) ==> b@[ee as int].right == Some(c) && b@[ee as int].left == a@[ee as int].left))
        }),
{
    let sq = a@;
    let nd = sq[n as int];
    let l = nd.left->0;
    let rt = nd.right->0;
    let m = a.leftmost(rt);
    let mn = sq[m as int];
    let mr = mn.right;
    let e = nd.parent;
    let c = sq.len() as usize;
    assert(a.fits(nd, a.rank@[n as int]));
    assert(a.fits(sq[m as int], a.rank@[m as int]));
    assert(a.fits(sq[rt as int], a.rank@[rt as int]));
    assert(a.fits(sq[l as int], a.rank@[l as int]));
    if let Some(ee) = e {
        assert(a.fits(sq[ee as int], a.rank@[ee as int]));
        assert(ee != l && ee != rt && ee != m && ee != n);
    }
    if let Some(x) = mr {
        assert(a.rank@[x as int] < a.rank@[m as int]);
        assert(x != m && x != rt && x != n);
        if m != rt {
            assert(a.rank@[m as int] < a.rank@[q as int]);
        }
    }
    if m != rt {
        assert(a.fits(sq[q as int], a.rank@[q as int]));
    }
    let cn = a.successor_copy(n);
    let s0 = sq.push(cn);
    let s1 = if mn.parent == Some(n) {
        match mr {
            Some(x) => set_parent(s0, x, Some(c)),
            None => s0,
        }
    } else {
        set_parent(transplanted(s0, m, mr), rt, Some(c))
    };
    let s2 = set_parent(s1, l, Some(c));
    assert(b@ == transplanted(s2, n, Some(c)));
    assert(s0[m as int] == mn);
    if m != rt {
        assert(s0[q as int] == sq[q as int]);
        let t1 = transplanted(s0, m, mr);
        assert(t1[q as int].left == mr && t1[q as int].right == sq[q as int].right && t1[q as int].key == sq[q as int].key);
        assert(t1[q as int].parent == sq[q as int].parent || mr == Some(q));
        assert forall|k: int| 0 <= k < sq.len() && k != q && Some(k as usize) != mr implies #[trigger] t1[k] == sq[k] by {}
        if let Some(x) = mr {
            assert(t1[x as int] == with_parent(sq[x as int], Some(q)));
        }
    }
    assert forall|k: int| 0 <= k <= sq.len() implies (#[trigger] s1[k]).key == s0[k].key by {}
    assert(s2[n as int] == nd);
    assert(s2.len() == sq.len() + 1);
    if let Some(ee) = e {
        assert(s2[ee as int] == sq[ee as int]);
    }
}

/// Facts about a node `n` with both children in a linked search tree: the
/// least node `m` of its right subtree comes first there and has no left
/// child; it hangs directly under `n` exactly when it is `n`'s right child,
/// and otherwise hangs as left child under a node `q` of the right subtree.
#[verifier::spinoff_prover]
#[verifier::rlimit(60)]
proof fn lemma_two_facts(a: BstArena, t: usize, n: usize) -> (q: usize)
    requires
        a.wf(),
        a.linked_search_tree(t),
        a.inorder(Some(t)).contains(n),
        a@[n as int].left is Some,
        a@[n as int].right is Some,
    ensures
        ({
            let nd = a@[n as int];
            let l = nd.left->0;
            let rt = nd.right->0;
            let m = a.leftmost(rt);
            let mn = a@[m as int];
            let sl = a.inorder(Some(l));
            let sr = a.inorder(Some(rt));
            let sn = a.inorder(Some(n));
            &&& n < a@.len()
            &&& sn == sl + seq![n] + sr
            &&& sn.no_duplicates()
            &&& a.inorder(Some(t)).contains(l)
            &&& a.inorder(Some(t)).contains(rt)
            &&& sl.contains(l)
            &&& sr.contains(rt)
            &&& sr.contains(m)
            &&& m < a@.len()
            &&& sr.len() > 0
            &&& sr[0] == m
            &&& mn.left is None
            &&& a.rank@[m as int] <= a.rank@[rt as int]
            &&& a@[l as int].parent == Some(n)
            &&& a@[rt as int].parent == Some(n)
            &&& (m == rt <==> mn.parent == Some(n))
            &&& (m != rt ==> mn.parent == Some(q) && q < a@.len() && a@[q as int].left == Some(m) && sr.contains(q)
                && a.inorder(Some(t)).contains(q))
            &&& (forall|k: usize| #[trigger] sl.contains(k) ==> !sr.contains(k))
            &&& (forall|k: usize| #[trigger] sn.contains(k) ==> a.inorder(Some(t)).contains(k) && k < a@.len()
                && a.rank@[k as int] <= a.rank@[n as int])
            &&& (forall|k: usize| #[trigger] sl.contains(k) ==> sn.contains(k))
            &&& (forall|k: usize| #[trigger] sr.contains(k) ==> sn.contains(k))
            &&& (mn.right matches Some(x) ==> sr.contains(x) && a@[x as int].parent == Some(m) && x != l)
            &&& l != rt && l != m
        }),
{
    let s = a.inorder(Some(t));
    a.lemma_inorder_facts(Some(t));
    let nd = a@[n as int];
    assert(a.fits(a.nodes@[n as int], a.rank@[n as int]));
    let l = nd.left->0;
    let rt = nd.right->0;
    lemma_keys_unfold(a, n);
    a.lemma_inorder_facts(Some(n));
    a.lemma_inorder_facts(Some(l));
    a.lemma_inorder_facts(Some(rt));
    lemma_sub_contains(a, t, n, rt);
    lemma_sub_contains(a, t, n, l);
    lemma_nodup_sub(a, t, n);
    let sn = a.inorder(Some(n));
    let sl = a.inorder(Some(l));
    let sr = a.inorder(Some(rt));
    lemma_nodup_split(sl, n, sr);
    assert forall|k: usize| #[trigger] sn.contains(k) implies s.contains(k) && k < a@.len()
        && a.rank@[k as int] <= a.rank@[n as int] by {
        lemma_sub_contains(a, t, n, k);
        if k != n {
            lemma_below_ranks(a, n, k);
        }
    }
    let ks = a.keys(Some(t));
    let st_n = lemma_block(a, t, n);
    assert forall|j: int| 0 <= j < a.keys(Some(rt)).len() implies (#[trigger] a.keys(Some(rt))[j]) is Some by {
        assert(sn[sl.len() + 1 + j] == sr[j]);
        assert(s[st_n + sl.len() + 1 + j] == sr[j]);
        assert(ks[st_n + sl.len() + 1 + j] == a.keys(Some(rt))[j]);
    }
    lemma_keys_unfold(a, rt);
    lemma_extremes(a, rt);
    a.lemma_leftmost_facts(rt);
    let m = a.leftmost(rt);
    let mn = a@[m as int];
    assert(a.fits(a.nodes@[m as int], a.rank@[m as int]));
    assert(a.fits(a.nodes@[rt as int], a.rank@[rt as int]));
    let q: usize = if m == rt { n } else { lemma_leftmost_left_child(a, rt) };
    if m == rt {
        let rn = a@[rt as int];
        assert(rn.key is Some) by {
            assert(a.keys(Some(rt))[a.inorder(rn.left).len() as int] == rn.key);
        }
        if let Some(rl) = rn.left {
            a.lemma_leftmost_facts(rl);
        }
        assert(mn.left is None);
    } else {
        lemma_sub_contains(a, t, rt, q);
        assert(s.contains(q));
        assert(mn.parent == Some(q));
        assert(q != n);
    }
    if let Some(x) = mn.right {
        a.lemma_inorder_facts(Some(m));
        a.lemma_inorder_facts(Some(x));
        lemma_sub_contains(a, rt, m, x);
        lemma_sub_contains(a, t, rt, m);
        assert(s.contains(m));
        assert(a@[x as int].parent == Some(m));
    }
    q
}

/// The parts of the tree that end up under the copy `c` in `tree_delete`:
/// the old left subtree, and the old right subtree without its least node.
#[verifier::spinoff_prover]
#[verifier::rlimit(100)]
proof fn lemma_two_parts(a: BstArena, b: BstArena, t: usize, n: usize, q: usize)
    requires
        n < a@.len(),
        a.wf(),
        b.wf(),
        a.linked_search_tree(t),
        a.inorder(Some(t)).contains(n),
        a@[n as int].left is Some,
        a@[n as int].right is Some,
        a@.len() < usize::MAX,
        b@ == a.deleted(n),
        ({
            let nd = a@[n as int];
            let l = nd.left->0;
            let rt = nd.right->0;
            let m = a.leftmost(rt);
            let mn = a@[m as int];
            let sl = a.inorder(Some(l));
            let sr = a.inorder(Some(rt));
            let sn = a.inorder(Some(n));
            &&& sn == sl + seq![n] + sr
            &&& sn.no_duplicates()
            &&& sl.contains(l)
            &&& sr.contains(rt)
            &&& sr.contains(m)
            &&& m < a@.len()
            &&& sr.len() > 0
            &&& sr[0] == m
            &&& mn.left is None
            &&& a.rank@[m as int] <= a.rank@[rt as int]
            &&& (m == rt <==> mn.parent == Some(n))
            &&& (m != rt ==> mn.parent == Some(q) && q < a@.len() && a@[q as int].left == Some(m) && sr.contains(q))
            &&& (forall|k: usize| #[trigger] sl.contains(k) ==> !sr.contains(k))
            &&& (forall|k: usize| #[trigger] sn.contains(k) ==> k < a@.len() && a.rank@[k as int] <= a.rank@[n as int])
            &&& (forall|k: usize| #[trigger] sl.contains(k) ==> sn.contains(k))
            &&& (forall|k: usize| #[trigger] sr.contains(k) ==> sn.contains(k))
            &&& (mn.right matches Some(x) ==> sr.contains(x) && x != l)
            &&& l != rt && l != m
            &&& (m != rt ==> q != l && q != n)
        }),
    ensures
        ({
            let nd = a@[n as int];
            let l = nd.left->0;
            let rt = nd.right->0;
            let m = a.leftmost(rt);
            let sl = a.inorder(Some(l));
            let sr = a.inorder(Some(rt));
            let c = a@.len() as usize;
            b.inorder(Some(c)) == sl + seq![c] + sr.subrange(1, sr.len() as int)
        }),
{
    let nd = a@[n as int];
    let l = nd.left->0;
    let rt = nd.right->0;
    let c = a@.len() as usize;
    let e = nd.parent;
    let m = a.leftmost(rt);
    let mn = a@[m as int];
    let mr = mn.right;
    let sn = a.inorder(Some(n));
    let sl = a.inorder(Some(l));
    let sr = a.inorder(Some(rt));
    assert(a.fits(a.nodes@[n as int], a.rank@[n as int]));
    assert(sn[sl.len() as int] == n);
    if let Some(ee) = e {
        assert(a.fits(a.nodes@[ee as int], a.rank@[ee as int]));
        assert(sn.contains(n));
    }
    assert(a.fits(a.nodes@[m as int], a.rank@[m as int]));
    if m != rt {
        assert(a.fits(a.nodes@[q as int], a.rank@[q as int]));
        assert(sn.contains(q));
    }
    lemma_delete_two_shape(a, b, n, q);
    // the left subtree is untouched but for l's parent
    assert forall|k: usize| #[trigger] sl.contains(k) implies {
        &&& k < b@.len()
        &&& k < a@.len()
        &&& b@[k as int].key == a@[k as int].key
        &&& b@[k as int].left == a@[k as int].left
        &&& b@[k as int].right == a@[k as int].right
    } by {
        assert(sn.contains(k));
    }
    a.lemma_frame(b, l);
    // the subtree of m's right child is untouched but for that child's parent
    a.lemma_inorder_facts(mr);
    let smr = a.inorder(mr);
    if let Some(x) = mr {
        assert(a.rank@[x as int] < a.rank@[m as int]);
        assert forall|k: usize| #[trigger] smr.contains(k) implies {
            &&& k < b@.len()
            &&& k < a@.len()
            &&& b@[k as int].key == a@[k as int].key
            &&& b@[k as int].left == a@[k as int].left
            &&& b@[k as int].right == a@[k as int].right
        } by {
            if k != x {
                lemma_below_ranks(a, x, k);
            }
            assert(a.rank@[k as int] < a.rank@[n as int]);
            if m != rt && k == q {
                assert(a.rank@[m as int] < a.rank@[q as int]);
            }
        }
        a.lemma_frame(b, x);
    }
    assert(b.inorder(mr) == smr) by {
        if mr is None {
            b.lemma_inorder_facts(mr);
            assert(b.inorder(mr) =~= Seq::<usize>::empty());
        }
    }
    lemma_keys_unfold(a, m);
    let sm = a.inorder(Some(m));
    assert(sm =~= seq![m] + smr) by {
        assert(a.inorder(mn.left) =~= Seq::<usize>::empty());
    }
    let cr = if m == rt { mr } else { Some(rt) };
    if m == rt {
        assert(sr =~= seq![rt] + smr);
        assert(b.inorder(cr) =~= sr.subrange(1, sr.len() as int));
    } else {
        let stm = lemma_block(a, rt, m);
        assert(sr.subrange(stm, stm + sm.len()) == sm);
        assert(sr[stm] == m) by {
            assert(sr.subrange(stm, stm + sm.len())[0] == sm[0]);
        }
        assert(sn.contains(rt));
        lemma_nodup_sub(a, n, rt);
        assert(stm == 0) by {
            if stm != 0 {
                assert(sr[0] == sr[stm]);
            }
        }
        assert forall|j: usize|
            #[trigger] sr.contains(j) && j != q && !sm.contains(j) implies {
                &&& j < b@.len()
                &&& b@[j as int].key == a@[j as int].key
                &&& b@[j as int].left == a@[j as int].left
                &&& b@[j as int].right == a@[j as int].right
            } by {
            assert(sn.contains(j));
            if let Some(x) = mr {
                if j == x {
                    assert(smr.contains(x));
                    let z = choose|z: int| 0 <= z < smr.len() && smr[z] == x;
                    assert(sm[z + 1] == x);
                }
            }
        }
        assert(replaced(a, b, rt, m, q, mr));
        let st2 = lemma_replace(a, b, rt, rt, m, q, mr);
        assert(sr[st2] == m) by {
            assert(sr.subrange(st2, st2 + sm.len())[0] == sm[0]);
        }
        assert(st2 == 0) by {
            if st2 != 0 {
                assert(sr[0] == sr[st2]);
            }
        }
        assert forall|k: int| 0 <= k < smr.len() implies #[trigger] sr[1 + k] == smr[k] by {
            assert(sr.subrange(0, sm.len() as int)[1 + k] == sm[1 + k]);
        }
        let br = b.inorder(Some(rt));
        assert(sm.len() == 1 + smr.len());
        assert(br == sr.subrange(0, 0) + smr + sr.subrange(sm.len() as int, sr.len() as int));
        assert(br.len() == sr.len() - 1);
        assert forall|k: int| 0 <= k < br.len() implies #[trigger] br[k] == sr.subrange(1, sr.len() as int)[k] by {
            if k < smr.len() {
                assert(br[k] == smr[k]);
                assert(sr[1 + k] == smr[k]);
            } else {
                assert(br[k] == sr.subrange(sm.len() as int, sr.len() as int)[k - smr.len()]);
                assert(br[k] == sr[1 + k]);
            }
        }
        assert(br =~= sr.subrange(1, sr.len() as int));
    }
    assert(b.fits(b.nodes@[c as int], b.rank@[c as int]));
    lemma_keys_unfold(b, c);
}

/// The law of `tree_delete` for a node with both children.
#[verifier::spinoff_prover]
#[verifier::rlimit(100)]
proof fn lemma_delete_two_law(a: BstArena, b: BstArena, t: usize, n: usize, i: int)
    requires
        a.wf(),
        b.wf(),
        a.linked_search_tree(t),
        0 <= i < a.inorder(Some(t)).len(),
        a.inorder(Some(t))[i] == n,
        a@[n as int].left is Some,
        a@[n as int].right is Some,
        a@.len() < usize::MAX,
        b@ == a.deleted(n),
    ensures
        delete_leaves(a, b, t, i, if n == t { a.delete_result(n) } else { Some(t) }),
{
    let s = a.inorder(Some(t));
    a.lemma_inorder_facts(Some(t));
    assert(s.contains(n));
    let nd = a@[n as int];
    let l = nd.left->0;
    let rt = nd.right->0;
    let c = a@.len() as usize;
    let e = nd.parent;
    let q = lemma_two_facts(a, t, n);
    let m = a.leftmost(rt);
    let mn = a@[m as int];
    let mr = mn.right;
    let sn = a.inorder(Some(n));
    let sl = a.inorder(Some(l));
    let sr = a.inorder(Some(rt));
    assert(a.fits(a.nodes@[n as int], a.rank@[n as int]));
    if let Some(ee) = e {
        assert(a.fits(a.nodes@[ee as int], a.rank@[ee as int]));
        if m != rt {
            assert(sn.contains(q));
        }
    }
    lemma_two_parts(a, b, t, n, q);
    lemma_delete_two_shape(a, b, n, q);
    let bc = b.inorder(Some(c));
    // where the copy stands in the whole tree
    let st_n = lemma_block(a, t, n);
    let st: int = if n == t { 0 } else { st_n };
    let bt = if n == t { bc } else { b.inorder(Some(t)) };
    if n != t {
        let ee = lemma_tree_parent(a, t, t, n);
        assert(e == Some(ee));
        assert forall|j: usize|
            #[trigger] s.contains(j) && j != ee && !sn.contains(j) implies {
                &&& j < b@.len()
                &&& b@[j as int].key == a@[j as int].key
                &&& b@[j as int].left == a@[j as int].left
                &&& b@[j as int].right == a@[j as int].right
            } by {}
        assert(replaced(a, b, t, n, ee, Some(c)));
        let st1 = lemma_replace(a, b, t, t, n, ee, Some(c));
        assert(st1 == st_n) by {
            assert(s.subrange(st1, st1 + sn.len())[sl.len() as int] == sn[sl.len() as int]);
            assert(s.subrange(st_n, st_n + sn.len())[sl.len() as int] == sn[sl.len() as int]);
            if st1 != st_n {
                assert(s[st1 + sl.len()] == s[st_n + sl.len()]);
            }
        }
        assert(bt == s.subrange(0, st) + bc + s.subrange(st + sn.len(), s.len() as int));
    } else {
        assert(s == sn);
        assert(st_n == 0) by {
            assert(s.subrange(st_n, st_n + sn.len()) == sn);
            assert(s[st_n + sl.len()] == n);
            assert(s[sl.len() as int] == n);
            if st_n != 0 {
                assert(s[st_n + sl.len()] == s[sl.len() as int]);
            }
        }
        assert(bt =~= s.subrange(0, st) + bc + s.subrange(st + sn.len(), s.len() as int));
    }
    assert forall|k: int| 0 <= k < sn.len() implies #[trigger] s[st + k] == sn[k] by {
        assert(s.subrange(st_n, st_n + sn.len())[k] == s[st_n + k]);
    }
    assert(sn[sl.len() as int] == n);
    assert(i == st + sl.len()) by {
        if i != st + sl.len() {
            assert(s[i] == s[st + sl.len()]);
        }
    }
    assert(sn[sl.len() as int + 1] == sr[0]);
    assert(s[i + 1] == m);
    let bs = s.remove(i).update(i, c);
    assert forall|k: int| 0 <= k < bt.len() implies #[trigger] bt[k] == bs[k] by {
        if k < st {
        } else if k < st + sl.len() {
            assert(bt[k] == sl[k - st]);
            assert(sn[k - st] == sl[k - st]);
        } else if k == i {
        } else if k < st + sn.len() - 1 {
            assert(bt[k] == sr[k - i]);
            assert(sn[sl.len() + 1 + (k - i)] == sr[k - i]);
            assert(s[st + sl.len() + 1 + (k - i)] == sn[sl.len() + 1 + (k - i)]);
        } else {
            assert(bt[k] == s[k + 1]);
        }
    }
    assert(bt =~= bs);
    let top = if n == t { a.delete_result(n) } else { Some(t) };
    assert(b.inorder(top) == bs);
    assert(bs.no_duplicates()) by {
        assert forall|x: int, y: int| 0 <= x < bs.len() && 0 <= y < bs.len() && x != y implies bs[x] != bs[y] by {
            let x1 = if x < i { x } else { x + 1 };
            let y1 = if y < i { y } else { y + 1 };
            if x != i && y != i {
                assert(bs[x] == s[x1] && bs[y] == s[y1]);
            } else if x == i {
                assert(bs[y] == s[y1]);
                assert(s.contains(s[y1]));
            } else {
                assert(bs[x] == s[x1]);
                assert(s.contains(s[x1]));
            }
        }
    }
    assert(bs[i] == c);
    assert(b@[c as int].key == a@[m as int].key);
    if let Some(u) = top {
        if n != t {
            assert(a@[t as int].parent is None);
            assert(t != l && t != rt);
            if let Some(x) = mr {
                assert(t != x);
            }
        }
    }
    lemma_two_links(a, b, t, n, i);
    lemma_leaves_from_order(a, b, t, i, top, bs);
}

/// After `tree_delete` of a node with both children, every child in the
/// tree left names its parent.
#[verifier::spinoff_prover]
#[verifier::rlimit(60)]
proof fn lemma_two_links(a: BstArena, b: BstArena, t: usize, n: usize, i: int)
    requires
        a.wf(),
        b.wf(),
        a.linked_search_tree(t),
        0 <= i < a.inorder(Some(t)).len(),
        a.inorder(Some(t))[i] == n,
        i + 1 < a.inorder(Some(t)).len(),
        a.inorder(Some(t))[i + 1] == a.leftmost(a@[n as int].right->0),
        a@[n as int].left is Some,
        a@[n as int].right is Some,
        a@.len() < usize::MAX,
        b@ == a.deleted(n),
    ensures
        forall|j: usize| #[trigger] a.inorder(Some(t)).remove(i).update(i, a@.len() as usize).contains(j) ==> {
            &&& (b@[j as int].left matches Some(ch) ==> b@[ch as int].parent == Some(j))
            &&& (b@[j as int].right matches Some(ch) ==> b@[ch as int].parent == Some(j))
        },
{
    let s = a.inorder(Some(t));
    a.lemma_inorder_facts(Some(t));
    let c = a@.len() as usize;
    let bs = s.remove(i).update(i, c);
    let nd = a@[n as int];
    let e = nd.parent;
    let q = lemma_two_facts(a, t, n);
    let rt = nd.right->0;
    let m = a.leftmost(rt);
    let sn = a.inorder(Some(n));
    assert(a.fits(a.nodes@[n as int], a.rank@[n as int]));
    if let Some(ee) = e {
        assert(a.fits(a.nodes@[ee as int], a.rank@[ee as int]));
        if m != rt {
            assert(sn.contains(q));
        }
    }
    lemma_delete_two_shape(a, b, n, q);
    assert forall|j: usize| #[trigger] bs.contains(j) implies {
        &&& (b@[j as int].left matches Some(ch) ==> b@[ch as int].parent == Some(j))
        &&& (b@[j as int].right matches Some(ch) ==> b@[ch as int].parent == Some(j))
    } by {
        let x = choose|x: int| 0 <= x < bs.len() && bs[x] == j;
        if x != i {
            let x1 = if x < i { x } else { x + 1 };
            assert(bs[x] == s[x1]);
            assert(s.contains(j));
            assert(j != n) by {
                assert(s[x1] != s[i]);
            }
            assert(j != m) by {
                assert(s[x1] != s[i + 1]);
            }
            assert(a.fits(a.nodes@[j as int], a.rank@[j as int]));
            if let Some(ch) = a@[j as int].left {
                assert(a@[ch as int].parent == Some(j));
            }
            if let Some(ch) = a@[j as int].right {
                assert(a@[ch as int].parent == Some(j));
            }
        }
    }
}

/// The law of `tree_delete` on a linked search tree: the tree left (the same
/// tree, or the node put in place of a deleted top) holds the old keys
/// without the deleted node's key, and is a linked search tree again.
pub proof fn lemma_delete_law(a: BstArena, b: BstArena, t: usize, n: usize, i: int)
    requires
        a.wf(),
        b.wf(),
        a.linked_search_tree(t),
        0 <= i < a.inorder(Some(t)).len(),
        a.inorder(Some(t))[i] == n,
        a@[n as int].left is Some || a@[n as int].right is Some,
        a@[n as int].left is Some && a@[n as int].right is Some ==> a@.len() < usize::MAX,
        b@ == a.deleted(n),
    ensures
        ({
            let top = if n == t { a.delete_result(n) } else { Some(t) };
            &&& b.keys(top) == a.keys(Some(t)).remove(i)
            &&& (top matches Some(u) ==> b.linked_search_tree(u))
        }),
{
    let nd = a@[n as int];
    if nd.left is None || nd.right is None {
        lemma_delete_one_law(a, b, t, n, i);
    } else {
        lemma_delete_two_law(a, b, t, n, i);
    }
}

/// After `tree_delete` removes a node of a linked search tree, a search
/// from the top of the tree left no longer finds the removed key.
pub proof fn lemma_delete_then_search(a: BstArena, b: BstArena, t: usize, n: usize, i: int)
    requires
        a.wf(),
        b.wf(),
        a.linked_search_tree(t),
        0 <= i < a.inorder(Some(t)).len(),
        a.inorder(Some(t))[i] == n,
        a@[n as int].left is Some || a@[n as int].right is Some,
        a@[n as int].left is Some && a@[n as int].right is Some ==> a@.len() < usize::MAX,
        b@ == a.deleted(n),
    ensures
        ({
            let top = if n == t { a.delete_result(n) } else { Some(t) };
            top matches Some(u) ==> b.search_node(b@[u as int], a@[n as int].key->0) is None
        }),
{
    let top = if n == t { a.delete_result(n) } else { Some(t) };
    lemma_delete_law(a, b, t, n, i);
    let ka = a.keys(Some(t));
    a.lemma_inorder_facts(Some(t));
    assert(ka[i] == a@[n as int].key);
    if let Some(u) = top {
        let kb = b.keys(Some(u));
        assert(kb == ka.remove(i));
        lemma_keys_unfold(b, u);
        assert(b.fits(b.nodes@[u as int], b.rank@[u as int]));
        assert(sorted_keys(kb)) by {
            assert forall|x: int, y: int| 0 <= x < y < kb.len() implies (#[trigger] kb[x])->0 <= (#[trigger] kb[y])->0 by {
                assert(kb[x]->0 < kb[y]->0);
            }
        }
        assert(!kb.contains(ka[i])) by {
            if kb.contains(ka[i]) {
                let x = choose|x: int| 0 <= x < kb.len() && kb[x] == ka[i];
                if x < i {
                    assert(kb[x] == ka[x]);
                    assert(ka[x]->0 < ka[i]->0);
                } else {
                    assert(kb[x] == ka[x + 1]);
                    assert(ka[i]->0 < ka[x + 1]->0);
                }
            }
        }
        assert(ka[i] is Some);
        lemma_search_node_correct(b, b@[u as int], ka[i]->0);
    }
}

} // verus!
