use vstd::prelude::*;
use crate::structure::bst_delete::{lemma_delete_law, lemma_simpler_law};
use crate::structure::bst_laws::{lemma_attach_side, lemma_predecessor_facts, lemma_root_of_tree_node, lemma_predecessor_law, lemma_spot_facts, lemma_insert_keeps_search_tree, lemma_insert_keeps_linked, lemma_successor_law, lemma_insert_sorted, lemma_search_node_correct, lemma_extremes, lemma_keys_unfold, lemma_sorted_split, lemma_last_right, lemma_root_has_no_parent};

verus! {

/// A strong link to a node: the node's index in its `BstArena`.
pub type BstNodeLink = usize;

/// A weak link to a node (a parent link). Nodes are never freed from an
/// arena, so a weak link can always be upgraded.
pub type WeakBstNodeLink = usize;

/// A node of a binary search tree whose links point into a `BstArena`.
#[derive(Debug, Clone, Copy)]
pub struct BstNode {
    pub key: Option<i32>,
    pub parent: Option<WeakBstNodeLink>,
    pub left: Option<BstNodeLink>,
    pub right: Option<BstNodeLink>,
}

/// The shared store of all nodes; a `BstNodeLink` is an index into it.
///
/// Every node carries a ghost rank: a child always ranks below its node and a
/// parent above it, so following child links or parent links always ends.
pub struct BstArena {
    pub nodes: Vec<BstNode>,
    pub rank: Ghost<Seq<int>>,
    pub floor: Ghost<int>,
    pub ceil: Ghost<int>,
}

impl View for BstArena {
    type V = Seq<BstNode>;

    open spec fn view(&self) -> Seq<BstNode> {
        self.nodes@
    }
}

/// The node that `BstNode::new(key)` builds.
pub open spec fn fresh_node(key: i32, parent: Option<usize>) -> BstNode {
    BstNode { key: Some(key), parent, left: None, right: None }
}

pub open spec fn with_left(nd: BstNode, l: Option<usize>) -> BstNode {
    BstNode { left: l, ..nd }
}

pub open spec fn with_right(nd: BstNode, r: Option<usize>) -> BstNode {
    BstNode { right: r, ..nd }
}

pub open spec fn with_parent(nd: BstNode, p: Option<usize>) -> BstNode {
    BstNode { parent: p, ..nd }
}

pub open spec fn set_left(s: Seq<BstNode>, i: usize, l: Option<usize>) -> Seq<BstNode> {
    s.update(i as int, with_left(s[i as int], l))
}

pub open spec fn set_right(s: Seq<BstNode>, i: usize, r: Option<usize>) -> Seq<BstNode> {
    s.update(i as int, with_right(s[i as int], r))
}

pub open spec fn set_parent(s: Seq<BstNode>, i: usize, p: Option<usize>) -> Seq<BstNode> {
    s.update(i as int, with_parent(s[i as int], p))
}

/// The nodes after `transplant(u, v)`: when `u` has a parent, the slot of
/// that parent that holds `u` (its left one if it is `u`, else its right
/// one) takes `v`; then `v`, if present, takes `u`'s parent (none for a top).
pub open spec fn transplanted(s: Seq<BstNode>, u: usize, v: Option<usize>) -> Seq<BstNode> {
    let p = s[u as int].parent;
    let s1 = match p {
        None => s,
        Some(q) => if s[q as int].left == Some(u) {
            set_left(s, q, v)
        } else {
            set_right(s, q, v)
        },
    };
    match v {
        None => s1,
        Some(x) => set_parent(s1, x, p),
    }
}

/// All keys are present and they never decrease from left to right.
pub open spec fn sorted_keys(s: Seq<Option<i32>>) -> bool {
    &&& forall|i: int| 0 <= i < s.len() ==> (#[trigger] s[i]) is Some
    &&& forall|i: int, j: int| 0 <= i < j < s.len() ==> (#[trigger] s[i])->0 <= (#[trigger] s[j])->0
}

/// All keys are present and they strictly increase from left to right.
pub open spec fn strictly_sorted_keys(s: Seq<Option<i32>>) -> bool {
    &&& forall|i: int| 0 <= i < s.len() ==> (#[trigger] s[i]) is Some
    &&& forall|i: int, j: int| 0 <= i < j < s.len() ==> (#[trigger] s[i])->0 < (#[trigger] s[j])->0
}

impl BstArena {
    pub open spec fn link_ok(self, l: Option<usize>) -> bool {
        l matches Some(j) ==> j < self.nodes@.len()
    }

    /// `nd` could stand in the arena with rank `r`.
    pub open spec fn fits(self, nd: BstNode, r: int) -> bool {
        &&& self.link_ok(nd.parent)
        &&& self.link_ok(nd.left)
        &&& self.link_ok(nd.right)
        &&& (nd.left matches Some(c) ==> self.rank@[c as int] < r)
        &&& (nd.right matches Some(c) ==> self.rank@[c as int] < r)
        &&& (nd.parent matches Some(p) ==> r < self.rank@[p as int])
    }

    /// `nd` can be stored as a new node of the arena.
    pub open spec fn can_hold(self, nd: BstNode) -> bool {
        exists|r: int| self.fits(nd, r)
    }

    /// `nd` can replace the node at index `i`.
    pub open spec fn admits_at(self, i: usize, nd: BstNode) -> bool {
        i < self.nodes@.len() && self.fits(nd, self.rank@[i as int])
    }

    pub open spec fn wf(self) -> bool {
        &&& self.rank@.len() == self.nodes@.len()
        &&& forall|i: int|
            0 <= i < self.nodes@.len() ==> self.floor@ <= #[trigger] self.rank@[i] <= self.ceil@
        &&& forall|i: int|
            0 <= i < self.nodes@.len() ==> self.fits(#[trigger] self.nodes@[i], self.rank@[i])
    }

    /// The ranks of the nodes that `old` has are unchanged.
    pub open spec fn ranks_kept(self, old: BstArena) -> bool {
        &&& old.nodes@.len() <= self.nodes@.len()
        &&& forall|i: int| 0 <= i < old.nodes@.len() ==> self.rank@[i] == old.rank@[i]
    }

    pub open spec fn down(self, n: Option<usize>) -> nat {
        match n {
            Some(i) => (self.rank@[i as int] - self.floor@ + 1) as nat,
            None => 0,
        }
    }

    pub open spec fn up(self, i: usize) -> nat {
        (self.ceil@ - self.rank@[i as int] + 1) as nat
    }

    /// The nodes of the subtree under `n`, in order: left subtree, node, right subtree.
    pub open spec fn inorder(self, n: Option<usize>) -> Seq<usize>
        decreases self.down(n),
        when self.wf() && self.link_ok(n)
    {
        match n {
            None => Seq::empty(),
            Some(i) => {
                let nd = self.nodes@[i as int];
                self.inorder(nd.left) + seq![i] + self.inorder(nd.right)
            },
        }
    }

    /// The keys of the subtree under `n`, in order.
    pub open spec fn keys(self, n: Option<usize>) -> Seq<Option<i32>> {
        self.inorder(n).map_values(|j: usize| self.nodes@[j as int].key)
    }

    /// The keys of a subtree whose top is the node value `nd`.
    pub open spec fn node_keys(self, nd: BstNode) -> Seq<Option<i32>> {
        self.keys(nd.left) + seq![nd.key] + self.keys(nd.right)
    }

    /// Where `minimum` stops: follow left links while the key is present.
    pub open spec fn leftmost(self, i: usize) -> usize
        decreases self.down(Some(i)),
        when self.wf() && i < self.nodes@.len()
    {
        let nd = self.nodes@[i as int];
        if nd.key is Some && nd.left is Some {
            self.leftmost(nd.left->0)
        } else {
            i
        }
    }

    /// Where `maximum` stops: follow right links while the key is present.
    pub open spec fn rightmost(self, i: usize) -> usize
        decreases self.down(Some(i)),
        when self.wf() && i < self.nodes@.len()
    {
        let nd = self.nodes@[i as int];
        if nd.key is Some && nd.right is Some {
            self.rightmost(nd.right->0)
        } else {
            i
        }
    }

    /// The last node reached by following right links only.
    pub open spec fn last_right(self, i: usize) -> usize
        decreases self.down(Some(i)),
        when self.wf() && i < self.nodes@.len()
    {
        match self.nodes@[i as int].right {
            Some(r) => self.last_right(r),
            None => i,
        }
    }

    /// The node value `minimum` copies when called on `nd`.
    pub open spec fn min_node(self, nd: BstNode) -> BstNode {
        if nd.key is Some && nd.left is Some {
            self.nodes@[self.leftmost(nd.left->0) as int]
        } else {
            nd
        }
    }

    /// The node value `maximum` copies when called on `nd`.
    pub open spec fn max_node(self, nd: BstNode) -> BstNode {
        if nd.key is Some && nd.right is Some {
            self.nodes@[self.rightmost(nd.right->0) as int]
        } else {
            nd
        }
    }

    /// The node `tree_search` stops at, starting from node `i`.
    pub open spec fn search_idx(self, i: usize, v: i32) -> Option<usize>
        decreases self.down(Some(i)),
        when self.wf() && i < self.nodes@.len()
    {
        let nd = self.nodes@[i as int];
        match nd.key {
            None => None,
            Some(k) => if k == v {
                Some(i)
            } else if v < k && nd.left is Some {
                self.search_idx(nd.left->0, v)
            } else if nd.right is Some {
                self.search_idx(nd.right->0, v)
            } else {
                None
            },
        }
    }

    /// The node value `tree_search` copies when called on `nd`.
    pub open spec fn search_node(self, nd: BstNode, v: i32) -> Option<BstNode> {
        match nd.key {
            None => None,
            Some(k) => if k == v {
                Some(nd)
            } else if v < k && nd.left is Some {
                match self.search_idx(nd.left->0, v) {
                    Some(j) => Some(self.nodes@[j as int]),
                    None => None,
                }
            } else if nd.right is Some {
                match self.search_idx(nd.right->0, v) {
                    Some(j) => Some(self.nodes@[j as int]),
                    None => None,
                }
            } else {
                None
            },
        }
    }

    /// Every node that `tree_insert` visits from node `i` holds a key.
    pub open spec fn insert_path_ok(self, i: usize, z: i32) -> bool
        decreases self.down(Some(i)),
        when self.wf() && i < self.nodes@.len()
    {
        let nd = self.nodes@[i as int];
        match nd.key {
            None => false,
            Some(k) => {
                let next = if k < z { nd.right } else { nd.left };
                match next {
                    Some(c) => self.insert_path_ok(c, z),
                    None => true,
                }
            },
        }
    }

    /// The node `tree_insert` hangs the new key under, starting at node `i`,
    /// and whether it becomes the right child (`true`) or the left one.
    pub open spec fn insert_spot(self, i: usize, z: i32) -> (usize, bool)
        decreases self.down(Some(i)),
        when self.wf() && i < self.nodes@.len()
    {
        let nd = self.nodes@[i as int];
        let goes_right = match nd.key {
            Some(k) => k < z,
            None => false,
        };
        let next = if goes_right { nd.right } else { nd.left };
        match next {
            Some(c) => self.insert_spot(c, z),
            None => (i, goes_right),
        }
    }

    /// The nodes after `tree_insert` hangs a new node holding `z` under the
    /// spot found from node `i`.
    pub open spec fn inserted(self, i: usize, z: i32) -> Seq<BstNode> {
        self.inserted_at(self.insert_spot(i, z), z)
    }

    /// The nodes after a new node holding `z` is hung under node `spot.0`, on
    /// the right when `spot.1` holds and on the left otherwise.
    pub open spec fn inserted_at(self, spot: (usize, bool), z: i32) -> Seq<BstNode> {
        let (p, goes_right) = spot;
        let x = self.nodes@.len() as usize;
        let pn = self.nodes@[p as int];
        self.nodes@.push(fresh_node(z, Some(p))).update(
            p as int,
            if goes_right { with_right(pn, Some(x)) } else { with_left(pn, Some(x)) },
        )
    }

    /// What `tree_successor` finds by walking up from node `x`: the first
    /// parent whose left child holds the same key as the node walked from.
    pub open spec fn succ_walk(self, x: usize) -> Option<usize>
        decreases self.up(x),
        when self.wf() && x < self.nodes@.len()
    {
        match self.nodes@[x as int].parent {
            None => None,
            Some(e) => {
                let en = self.nodes@[e as int];
                if en.left is Some && self.nodes@[en.left->0 as int].key == self.nodes@[x as int].key {
                    Some(e)
                } else {
                    self.succ_walk(e)
                }
            },
        }
    }

    /// What `tree_predecessor` returns for `node`: the last node on the right
    /// spine of its left subtree.
    pub open spec fn pred_of(self, node: Option<usize>) -> Option<usize> {
        match node {
            None => None,
            Some(i) => match self.nodes@[i as int].left {
                None => None,
                Some(l) => Some(self.last_right(l)),
            },
        }
    }

    /// `add_node` may hang a node holding `value` under `nd`: as left child
    /// when `value` is below its key and the left slot is free, else as right
    /// child when the right slot is free.
    pub open spec fn attachable(nd: BstNode, value: i32) -> bool {
        (Self::goes_left(nd, value) && nd.left is None) || nd.right is None
    }

    pub open spec fn goes_left(nd: BstNode, value: i32) -> bool {
        nd.key matches Some(k) && value < k
    }

    /// `nd` with the node at link `x` hung under it as `add_node` does.
    pub open spec fn attach(nd: BstNode, value: i32, x: usize) -> BstNode {
        if Self::goes_left(nd, value) && nd.left is None {
            with_left(nd, Some(x))
        } else {
            with_right(nd, Some(x))
        }
    }

    /// The keys of the nodes behind the links `s`.
    pub open spec fn keys_of(self, s: Seq<usize>) -> Seq<Option<i32>> {
        s.map_values(|j: usize| self.nodes@[j as int].key)
    }

    /// The tree under `r` is the one `build_balanced` makes from keys `ks`
    /// under `parent`: its top holds the middle key `ks[ks.len() / 2]`, the
    /// keys before it form the left subtree and the keys after it the right
    /// one, built the same way.
    pub open spec fn balanced_layout(self, r: Option<usize>, ks: Seq<Option<i32>>, parent: Option<usize>) -> bool
        decreases ks.len(),
    {
        if ks.len() == 0 {
            r is None
        } else {
            let mid = ks.len() / 2;
            let i = r->0;
            let nd = self.nodes@[i as int];
            &&& r is Some
            &&& i < self.nodes@.len()
            &&& nd.key == ks[mid as int]
            &&& nd.parent == parent
            &&& self.balanced_layout(nd.left, ks.subrange(0, mid as int), Some(i))
            &&& self.balanced_layout(nd.right, ks.subrange(mid as int + 1, ks.len() as int), Some(i))
        }
    }

    /// At every node under `n` the two subtrees differ in size by at most
    /// one, the left one never being the smaller.
    pub open spec fn size_balanced(self, n: Option<usize>) -> bool
        decreases self.down(n),
        when self.wf() && self.link_ok(n)
    {
        match n {
            None => true,
            Some(i) => {
                let nd = self.nodes@[i as int];
                let a = self.inorder(nd.left).len();
                let b = self.inorder(nd.right).len();
                &&& b <= a <= b + 1
                &&& self.size_balanced(nd.left)
                &&& self.size_balanced(nd.right)
            },
        }
    }

    /// The node value that takes the place of `node` when it has both
    /// children: the key of the least node `m` of its right subtree, the
    /// node's parent and left child, and as right child the node's right
    /// child, or `m`'s right child when `m` hangs directly under the node.
    pub open spec fn successor_copy(self, node: usize) -> BstNode {
        let nd = self.nodes@[node as int];
        let mn = self.nodes@[self.leftmost(nd.right->0) as int];
        BstNode {
            key: mn.key,
            parent: nd.parent,
            left: nd.left,
            right: if mn.parent == Some(node) { mn.right } else { nd.right },
        }
    }

    /// The nodes after `tree_delete(node)`.
    ///
    /// With a child missing, the other child is transplanted into the node's
    /// place. With both children, the node value
    /// `successor_copy(node)` is stored as a new node `c`; the least node `m`
    /// of the right subtree is taken out: when it hangs directly under the
    /// node its right child takes `c` as parent, otherwise `m`'s right child
    /// is transplanted into `m`'s place and the node's right child takes `c`
    /// as parent; the node's left child takes `c` as parent; then `c` is
    /// transplanted into the node's place.
    pub open spec fn deleted(self, node: usize) -> Seq<BstNode> {
        let s = self.nodes@;
        let nd = s[node as int];
        if nd.left is None {
            transplanted(s, node, nd.right)
        } else if nd.right is None {
            transplanted(s, node, nd.left)
        } else {
            let rt = nd.right->0;
            let m = self.leftmost(rt);
            let mn = s[m as int];
            let c = s.len() as usize;
            let s0 = s.push(self.successor_copy(node));
            let s1 = if mn.parent == Some(node) {
                match mn.right {
                    Some(x) => set_parent(s0, x, Some(c)),
                    None => s0,
                }
            } else {
                set_parent(transplanted(s0, m, mn.right), rt, Some(c))
            };
            transplanted(set_parent(s1, nd.left->0, Some(c)), node, Some(c))
        }
    }

    /// The link `tree_delete(node)` returns: the node put in its place.
    pub open spec fn delete_result(self, node: usize) -> Option<usize> {
        let nd = self.nodes@[node as int];
        if nd.left is None {
            nd.right
        } else if nd.right is None {
            nd.left
        } else {
            Some(self.nodes@.len() as usize)
        }
    }

    /// What `is_nil` says of an optional link: it is absent, or its node has
    /// no key, no parent and no children.
    pub open spec fn nil_link(self, l: Option<usize>) -> bool {
        match l {
            None => true,
            Some(x) => {
                let nd = self.nodes@[x as int];
                nd.key is None && nd.parent is None && nd.left is None && nd.right is None
            },
        }
    }

    /// What `tree_successor_simpler` finds by walking up from `x`: the first
    /// parent that does not hold the node walked from as its right child, or
    /// nothing when a nil parent or the top is reached first.
    pub open spec fn up_walk(self, x: usize) -> Option<usize>
        decreases self.up(x),
        when self.wf() && x < self.nodes@.len()
    {
        match self.nodes@[x as int].parent {
            None => None,
            Some(y) => if self.nil_link(Some(y)) {
                None
            } else if self.nodes@[y as int].right == Some(x) {
                self.up_walk(y)
            } else {
                Some(y)
            },
        }
    }

    /// The tree under `t` has no parent above it, holds no node twice, and
    /// every child of one of its nodes names that node as its parent.
    pub open spec fn linked_tree(self, t: usize) -> bool {
        let s = self.inorder(Some(t));
        &&& t < self.nodes@.len()
        &&& self.nodes@[t as int].parent is None
        &&& s.no_duplicates()
        &&& forall|j: usize| #[trigger] s.contains(j) ==> {
            &&& (self.nodes@[j as int].left matches Some(c) ==> self.nodes@[c as int].parent == Some(j))
            &&& (self.nodes@[j as int].right matches Some(c) ==> self.nodes@[c as int].parent == Some(j))
        }
    }

    /// The tree under `t` is a linked tree whose keys strictly increase in
    /// order.
    pub open spec fn linked_search_tree(self, t: usize) -> bool {
        &&& self.linked_tree(t)
        &&& strictly_sorted_keys(self.keys(Some(t)))
    }

    /// The node behind `r` in `new` holds the key of the node right after
    /// position `i` in the order of the tree under `t` in `old`, or `r` is
    /// absent when position `i` is the last one.
    pub open spec fn successor_found(old: BstArena, new: BstArena, t: usize, i: int, r: Option<usize>) -> bool {
        let s = old.inorder(Some(t));
        &&& (i + 1 < s.len() ==> (r matches Some(l) && l < new@.len() && new@[l as int].key == old@[s[i + 1] as int].key))
        &&& (i + 1 >= s.len() ==> r is None)
    }

    /// The root reached from node `i` by following parent links.
    pub open spec fn root_of(self, i: usize) -> usize
        decreases self.up(i),
        when self.wf() && i < self.nodes@.len()
    {
        match self.nodes@[i as int].parent {
            Some(p) => self.root_of(p),
            None => i,
        }
    }
}


impl BstArena {
    /// `other` holds the same node values as `self` at every index in `s`.
    pub open spec fn same_on(self, other: BstArena, s: Seq<usize>) -> bool {
        forall|k: usize| #[trigger] s.contains(k) ==> k < other@.len() && k < self@.len() && other@[k as int] == self@[k as int]
    }

    /// `other` holds the same key and children as `self` at every index in `s`
    /// (parent links may differ).
    pub open spec fn same_shape_on(self, other: BstArena, s: Seq<usize>) -> bool {
        forall|k: usize| #[trigger] s.contains(k) ==> {
            &&& k < other@.len()
            &&& k < self@.len()
            &&& other@[k as int].key == self@[k as int].key
            &&& other@[k as int].left == self@[k as int].left
            &&& other@[k as int].right == self@[k as int].right
        }
    }

    /// `other` holds the same node values as `self` at every index of `self`.
    pub open spec fn extended_by(self, other: BstArena) -> bool {
        &&& self@.len() <= other@.len()
        &&& forall|k: int| 0 <= k < self@.len() ==> #[trigger] other@[k] == self@[k]
    }

    pub proof fn lemma_inorder_facts(self, n: Option<usize>)
        requires
            self.wf(),
            self.link_ok(n),
        ensures
            forall|k: usize| #[trigger] self.inorder(n).contains(k) ==> k < self@.len(),
            n matches Some(i) ==> self.inorder(n).contains(i),
            n matches Some(i) ==> {
                let nd = self@[i as int];
                &&& forall|k: usize| #[trigger] self.inorder(nd.left).contains(k) ==> self.inorder(n).contains(k)
                &&& forall|k: usize| #[trigger] self.inorder(nd.right).contains(k) ==> self.inorder(n).contains(k)
            },
        decreases self.down(n),
    {
        if let Some(i) = n {
            let nd = self.nodes@[i as int];
            assert(self.fits(nd, self.rank@[i as int]));
            self.lemma_inorder_facts(nd.left);
            self.lemma_inorder_facts(nd.right);
            let s = self.inorder(n);
            let sl = self.inorder(nd.left);
            let sr = self.inorder(nd.right);
            assert(s == sl + seq![i] + sr);
            assert(s[sl.len() as int] == i);
            assert forall|k: usize| #[trigger] sl.contains(k) implies s.contains(k) by {
                let j = choose|j: int| 0 <= j < sl.len() && sl[j] == k;
                assert(s[j] == k);
            }
            assert forall|k: usize| #[trigger] sr.contains(k) implies s.contains(k) by {
                let j = choose|j: int| 0 <= j < sr.len() && sr[j] == k;
                assert(s[sl.len() + 1 + j] == k);
            }
            assert forall|k: usize| #[trigger] s.contains(k) implies k < self@.len() by {
                let j = choose|j: int| 0 <= j < s.len() && s[j] == k;
                if j < sl.len() {
                    assert(sl.contains(k));
                } else if j > sl.len() {
                    assert(sr[j - sl.len() - 1] == k);
                    assert(sr.contains(k));
                }
            }
        }
    }

    pub proof fn lemma_leftmost_facts(self, i: usize)
        requires
            self.wf(),
            i < self@.len(),
        ensures
            self.leftmost(i) < self@.len(),
            self.rank@[self.leftmost(i) as int] <= self.rank@[i as int],
            self.inorder(Some(i)).contains(self.leftmost(i)),
        decreases self.down(Some(i)),
    {
        let nd = self.nodes@[i as int];
        assert(self.fits(nd, self.rank@[i as int]));
        self.lemma_inorder_facts(Some(i));
        if nd.key is Some && nd.left is Some {
            self.lemma_leftmost_facts(nd.left->0);
        }
    }

    /// Specs that only look below node `i` agree on two arenas that hold the
    /// same keys and children at every node of that subtree.
    pub proof fn lemma_frame(self, other: BstArena, i: usize)
        requires
            self.wf(),
            other.wf(),
            i < self@.len(),
            self.same_shape_on(other, self.inorder(Some(i))),
        ensures
            other.inorder(Some(i)) == self.inorder(Some(i)),
            other.leftmost(i) == self.leftmost(i),
            other.rightmost(i) == self.rightmost(i),
            other.last_right(i) == self.last_right(i),
            forall|v: i32| #[trigger] other.search_idx(i, v) == self.search_idx(i, v),
        decreases self.down(Some(i)),
    {
        self.lemma_inorder_facts(Some(i));
        let nd = self.nodes@[i as int];
        assert(self.inorder(Some(i)).contains(i));
        assert(other@[i as int].key == nd.key && other@[i as int].left == nd.left && other@[i as int].right == nd.right);
        assert(self.fits(nd, self.rank@[i as int]));
        assert(other.fits(other.nodes@[i as int], other.rank@[i as int]));
        if let Some(l) = nd.left {
            self.lemma_inorder_facts(nd.left);
            self.lemma_frame(other, l);
        }
        if let Some(r) = nd.right {
            self.lemma_inorder_facts(nd.right);
            self.lemma_frame(other, r);
        }
        assert(other.inorder(nd.left) == self.inorder(nd.left));
        assert(other.inorder(nd.right) == self.inorder(nd.right));
        assert forall|v: i32| #[trigger] other.search_idx(i, v) == self.search_idx(i, v) by {
            if let Some(l) = nd.left {
                assert(other.search_idx(l, v) == self.search_idx(l, v));
            }
            if let Some(r) = nd.right {
                assert(other.search_idx(r, v) == self.search_idx(r, v));
            }
        }
    }

    /// Following parent links gives the same root in an arena that keeps every parent link.
    pub proof fn lemma_up_frame(self, other: BstArena, i: usize)
        requires
            self.wf(),
            other.wf(),
            i < self@.len(),
            self.parents_kept(other),
        ensures
            other.root_of(i) == self.root_of(i),
        decreases self.up(i),
    {
        let nd = self.nodes@[i as int];
        assert(self.fits(nd, self.rank@[i as int]));
        assert(other@[i as int].parent == nd.parent);
        if let Some(p) = nd.parent {
            assert(self.rank@[p as int] <= self.ceil@);
            self.lemma_up_frame(other, p);
        }
    }

    /// `other` keeps the parent link of every node of `self`.
    pub open spec fn parents_kept(self, other: BstArena) -> bool {
        &&& self@.len() <= other@.len()
        &&& forall|k: int| 0 <= k < self@.len() ==> (#[trigger] other@[k]).parent == self@[k].parent
    }

    /// The layout `build_balanced` makes only depends on the nodes it reaches.
    pub proof fn lemma_layout_frame(self, other: BstArena, r: Option<usize>, ks: Seq<Option<i32>>, parent: Option<usize>)
        requires
            self.wf(),
            other.wf(),
            self.balanced_layout(r, ks, parent),
            self.same_on(other, self.inorder(r)),
        ensures
            other.balanced_layout(r, ks, parent),
        decreases ks.len(),
    {
        if ks.len() > 0 {
            let i = r->0;
            let nd = self.nodes@[i as int];
            let mid = ks.len() / 2;
            self.lemma_inorder_facts(r);
            assert(self.fits(nd, self.rank@[i as int]));
            self.lemma_inorder_facts(nd.left);
            self.lemma_inorder_facts(nd.right);
            assert(self.inorder(r).contains(i));
            self.lemma_layout_frame(other, nd.left, ks.subrange(0, mid as int), Some(i));
            self.lemma_layout_frame(other, nd.right, ks.subrange(mid as int + 1, ks.len() as int), Some(i));
        }
    }

    /// A tree laid out by `build_balanced` holds the keys it was built from,
    /// in order, and is size-balanced.
    pub proof fn lemma_layout_keys(self, r: Option<usize>, ks: Seq<Option<i32>>, parent: Option<usize>)
        requires
            self.wf(),
            self.balanced_layout(r, ks, parent),
        ensures
            self.keys(r) == ks,
            self.inorder(r).len() == ks.len(),
            self.size_balanced(r),
        decreases ks.len(),
    {
        if ks.len() > 0 {
            let i = r->0;
            let nd = self.nodes@[i as int];
            let mid = ks.len() / 2;
            assert(self.fits(nd, self.rank@[i as int]));
            let kl = ks.subrange(0, mid as int);
            let kr = ks.subrange(mid as int + 1, ks.len() as int);
            self.lemma_layout_keys(nd.left, kl, Some(i));
            self.lemma_layout_keys(nd.right, kr, Some(i));
            assert(self.inorder(r) == self.inorder(nd.left) + seq![i] + self.inorder(nd.right));
            assert(self.keys(r) =~= self.keys(nd.left) + seq![nd.key] + self.keys(nd.right));
            assert(ks =~= kl + seq![ks[mid as int]] + kr);
        }
    }

    /// In a tree laid out by `build_balanced`, the top names `parent` as its
    /// parent and every child names the node above it.
    pub proof fn lemma_layout_links(self, r: Option<usize>, ks: Seq<Option<i32>>, parent: Option<usize>)
        requires
            self.wf(),
            self.balanced_layout(r, ks, parent),
        ensures
            r matches Some(i) ==> self@[i as int].parent == parent,
            forall|j: usize| #[trigger] self.inorder(r).contains(j) ==> {
                &&& (self@[j as int].left matches Some(c) ==> self@[c as int].parent == Some(j))
                &&& (self@[j as int].right matches Some(c) ==> self@[c as int].parent == Some(j))
            },
        decreases ks.len(),
    {
        if ks.len() > 0 {
            let i = r->0;
            let nd = self.nodes@[i as int];
            let mid = ks.len() / 2;
            assert(self.fits(nd, self.rank@[i as int]));
            let kl = ks.subrange(0, mid as int);
            let kr = ks.subrange(mid as int + 1, ks.len() as int);
            self.lemma_layout_links(nd.left, kl, Some(i));
            self.lemma_layout_links(nd.right, kr, Some(i));
            let s = self.inorder(r);
            let sl = self.inorder(nd.left);
            let sr = self.inorder(nd.right);
            assert(s == sl + seq![i] + sr);
            assert forall|j: usize| #[trigger] s.contains(j) implies {
                &&& (self@[j as int].left matches Some(c) ==> self@[c as int].parent == Some(j))
                &&& (self@[j as int].right matches Some(c) ==> self@[c as int].parent == Some(j))
            } by {
                let x = choose|x: int| 0 <= x < s.len() && s[x] == j;
                if x < sl.len() {
                    assert(sl[x] == j);
                    assert(sl.contains(j));
                } else if x > sl.len() {
                    assert(sr[x - sl.len() - 1] == j);
                    assert(sr.contains(j));
                }
            }
        }
    }

    /// A tree whose keys strictly increase holds no node twice.
    pub proof fn lemma_strict_keys_no_dup_nodes(self, r: Option<usize>)
        requires
            strictly_sorted_keys(self.keys(r)),
        ensures
            self.inorder(r).no_duplicates(),
    {
        let s = self.inorder(r);
        let ks = self.keys(r);
        assert forall|x: int, y: int| 0 <= x < s.len() && 0 <= y < s.len() && x != y implies s[x] != s[y] by {
            assert(ks[x] == self@[s[x] as int].key && ks[y] == self@[s[y] as int].key);
            if x < y {
                assert(ks[x]->0 < ks[y]->0);
            } else {
                assert(ks[y]->0 < ks[x]->0);
            }
        }
    }

    /// An arena with no nodes.
    pub fn new() -> (a: BstArena)
        ensures
            a.wf(),
            a@ == Seq::<BstNode>::empty(),
    {
        BstArena { nodes: Vec::new(), rank: Ghost(Seq::empty()), floor: Ghost(0), ceil: Ghost(0) }
    }

    pub fn len(&self) -> (n: usize)
        ensures
            n == self@.len(),
    {
        self.nodes.len()
    }

    /// A copy of the node behind link `i`.
    pub fn node(&self, i: BstNodeLink) -> (nd: BstNode)
        requires
            i < self@.len(),
        ensures
            nd == self@[i as int],
    {
        self.nodes[i]
    }

    /// Replaces the node behind link `i`.
    pub fn set_node(&mut self, i: BstNodeLink, nd: BstNode)
        requires
            old(self).wf(),
            old(self).admits_at(i, nd),
        ensures
            final(self).wf(),
            final(self)@ == old(self)@.update(i as int, nd),
            final(self).rank@ == old(self).rank@,
            final(self).floor@ == old(self).floor@,
            final(self).ceil@ == old(self).ceil@,
    {
        self.nodes.set(i, nd);
        assert forall|j: int| 0 <= j < self.nodes@.len() implies self.fits(#[trigger] self.nodes@[j], self.rank@[j]) by {
            assert(old(self).fits(old(self).nodes@[j], old(self).rank@[j]));
        }
    }

    /// Replaces the node at `i` with no regard to ranks.
    fn put(&mut self, i: BstNodeLink, nd: BstNode)
        requires
            i < old(self)@.len(),
        ensures
            final(self)@ == old(self)@.update(i as int, nd),
            final(self).rank == old(self).rank,
            final(self).floor == old(self).floor,
            final(self).ceil == old(self).ceil,
    {
        self.nodes.set(i, nd);
    }

    /// Stores `nd` as a new node with rank `r`; its link is the old length.
    fn push_ranked(&mut self, nd: BstNode, Ghost(r): Ghost<int>) -> (l: BstNodeLink)
        requires
            old(self).wf(),
            old(self).fits(nd, r),
        ensures
            final(self).wf(),
            final(self)@ == old(self)@.push(nd),
            l == old(self)@.len(),
            final(self).rank@ == old(self).rank@.push(r),
            final(self).floor@ == (if r < old(self).floor@ { r } else { old(self).floor@ }),
            final(self).ceil@ == (if r > old(self).ceil@ { r } else { old(self).ceil@ }),
    {
        let l = self.nodes.len();
        self.nodes.push(nd);
        self.rank = Ghost(self.rank@.push(r));
        self.floor = Ghost(if r < self.floor@ { r } else { self.floor@ });
        self.ceil = Ghost(if r > self.ceil@ { r } else { self.ceil@ });
        assert forall|j: int| 0 <= j < self.nodes@.len() implies self.fits(#[trigger] self.nodes@[j], self.rank@[j]) by {
            if j < l {
                assert(old(self).fits(old(self).nodes@[j], old(self).rank@[j]));
            }
        }
        assert forall|j: int| 0 <= j < self.nodes@.len() implies self.floor@ <= #[trigger] self.rank@[j] <= self.ceil@ by {
            if j < l {
                assert(old(self).floor@ <= old(self).rank@[j] <= old(self).ceil@);
            }
        }
        l
    }

    /// Stores a node with no children below every other node.
    fn push_leaf(&mut self, nd: BstNode) -> (l: BstNodeLink)
        requires
            old(self).wf(),
            nd.left is None,
            nd.right is None,
            old(self).link_ok(nd.parent),
        ensures
            final(self).wf(),
            final(self)@ == old(self)@.push(nd),
            l == old(self)@.len(),
            final(self).ranks_kept(*old(self)),
            final(self).rank@[l as int] < old(self).floor@,
            final(self).floor@ == final(self).rank@[l as int],
    {
        let ghost r = self.floor@ - 1;
        proof {
            if let Some(p) = nd.parent {
                assert(self.floor@ <= self.rank@[p as int]);
            }
        }
        self.push_ranked(nd, Ghost(r))
    }

    /// Stores `nd` as a new node.
    fn push_node(&mut self, nd: BstNode) -> (l: BstNodeLink)
        requires
            old(self).wf(),
            old(self).can_hold(nd),
        ensures
            final(self).wf(),
            final(self)@ == old(self)@.push(nd),
            l == old(self)@.len(),
            final(self).ranks_kept(*old(self)),
    {
        let ghost r = choose|r: int| self.fits(nd, r);
        self.push_ranked(nd, Ghost(r))
    }

    /// Every node of a well-formed arena can be copied into it.
    pub proof fn lemma_node_can_hold(self, i: usize)
        requires
            self.wf(),
            i < self@.len(),
        ensures
            self.can_hold(self@[i as int]),
            self.admits_at(i, self@[i as int]),
    {
        assert(self.fits(self.nodes@[i as int], self.rank@[i as int]));
    }
}

impl BstNode {
    fn new(key: i32) -> (nd: Self)
        ensures
            nd == fresh_node(key, None),
    {
        BstNode { key: Some(key), left: None, right: None, parent: None }
    }

    /// Creates a lone node holding `value` and returns its link.
    pub fn new_bst_nodelink(arena: &mut BstArena, value: i32) -> (l: BstNodeLink)
        requires
            old(arena).wf(),
        ensures
            final(arena).wf(),
            final(arena)@ == old(arena)@.push(fresh_node(value, None)),
            l == old(arena)@.len(),
            final(arena).ranks_kept(*old(arena)),
    {
        let currentnode = BstNode::new(value);
        arena.push_leaf(currentnode)
    }

    /// Stores a copy of this node as a new node and returns its link.
    pub fn get_bst_nodelink_copy(&self, arena: &mut BstArena) -> (l: BstNodeLink)
        requires
            old(arena).wf(),
            old(arena).can_hold(*self),
        ensures
            final(arena).wf(),
            final(arena)@ == old(arena)@.push(*self),
            l == old(arena)@.len(),
            final(arena).ranks_kept(*old(arena)),
    {
        arena.push_node(*self)
    }

    fn downgrade(node: &BstNodeLink) -> (w: WeakBstNodeLink)
        ensures
            w == *node,
    {
        *node
    }

    fn new_with_parent(arena: &mut BstArena, parent: &BstNodeLink, value: i32) -> (l: BstNodeLink)
        requires
            old(arena).wf(),
            *parent < old(arena)@.len(),
        ensures
            final(arena).wf(),
            final(arena)@ == old(arena)@.push(fresh_node(value, Some(*parent))),
            l == old(arena)@.len(),
            final(arena).ranks_kept(*old(arena)),
            final(arena).rank@[l as int] < old(arena).floor@,
            final(arena).floor@ == final(arena).rank@[l as int],
    {
        let mut currentnode = BstNode::new(value);
        currentnode.parent = Some(BstNode::downgrade(parent));
        arena.push_leaf(currentnode)
    }

    /// Makes a new node holding `value`, whose parent is `current_node_link`,
    /// the left child of this node.
    pub fn add_left_child(&mut self, arena: &mut BstArena, current_node_link: &BstNodeLink, value: i32)
        requires
            old(arena).wf(),
            *current_node_link < old(arena)@.len(),
        ensures
            final(arena).wf(),
            final(arena)@ == old(arena)@.push(fresh_node(value, Some(*current_node_link))),
            *final(self) == with_left(*old(self), Some(old(arena)@.len() as usize)),
            final(arena).ranks_kept(*old(arena)),
            forall|i: usize| old(arena).admits_at(i, *old(self)) ==> final(arena).admits_at(i, *final(self)),
    {
        let new_node = BstNode::new_with_parent(arena, current_node_link, value);
        self.left = Some(new_node);
        proof {
            assert forall|i: usize| old(arena).admits_at(i, *old(self)) implies arena.admits_at(i, *self) by {
                assert(arena.rank@[new_node as int] < old(arena).floor@);
                assert(old(arena).floor@ <= old(arena).rank@[i as int]);
            }
        }
    }

    /// Makes a new node holding `value`, whose parent is `current_node_link`,
    /// the right child of this node.
    pub fn add_right_child(&mut self, arena: &mut BstArena, current_node_link: &BstNodeLink, value: i32)
        requires
            old(arena).wf(),
            *current_node_link < old(arena)@.len(),
        ensures
            final(arena).wf(),
            final(arena)@ == old(arena)@.push(fresh_node(value, Some(*current_node_link))),
            *final(self) == with_right(*old(self), Some(old(arena)@.len() as usize)),
            final(arena).ranks_kept(*old(arena)),
            forall|i: usize| old(arena).admits_at(i, *old(self)) ==> final(arena).admits_at(i, *final(self)),
    {
        let new_node = BstNode::new_with_parent(arena, current_node_link, value);
        self.right = Some(new_node);
        proof {
            assert forall|i: usize| old(arena).admits_at(i, *old(self)) implies arena.admits_at(i, *self) by {
                assert(arena.rank@[new_node as int] < old(arena).floor@);
                assert(old(arena).floor@ <= old(arena).rank@[i as int]);
            }
        }
    }
}


/// Two optional keys are equal.
fn same_key(a: Option<i32>, b: Option<i32>) -> (r: bool)
    ensures
        r == (a == b),
{
    match (a, b) {
        (None, None) => true,
        (Some(x), Some(y)) => x == y,
        _ => false,
    }
}

impl BstNode {
    fn has_parent(arena: &BstArena, node: &BstNodeLink) -> (r: bool)
        requires
            *node < arena@.len(),
        ensures
            r == arena@[*node as int].parent is Some,
    {
        if BstNode::upgrade_weak_to_strong(arena.node(*node).parent).is_none() {
            return false;
        }
        true
    }

    fn get_strong_parent(arena: &BstArena, node: &BstNodeLink) -> (p: BstNodeLink)
        requires
            *node < arena@.len(),
            arena@[*node as int].parent is Some,
        ensures
            arena@[*node as int].parent == Some(p),
    {
        BstNode::upgrade_weak_to_strong(arena.node(*node).parent).unwrap()
    }

    fn is_right_child_exist(arena: &BstArena, node: &BstNodeLink) -> (r: bool)
        requires
            *node < arena@.len(),
        ensures
            r == arena@[*node as int].right is Some,
    {
        if arena.node(*node).right.is_some() {
            return true;
        }
        false
    }

    fn is_left_child_exist(arena: &BstArena, node: &BstNodeLink) -> (r: bool)
        requires
            *node < arena@.len(),
        ensures
            r == arena@[*node as int].left is Some,
    {
        if arena.node(*node).left.is_some() {
            return true;
        }
        false
    }

    /// True when the link is absent or its node has no key, no parent and no
    /// children.
    fn is_nil(arena: &BstArena, node: &Option<BstNodeLink>) -> (r: bool)
        requires
            arena.link_ok(*node),
        ensures
            r == arena.nil_link(*node),
    {
        match node {
            None => true,
            Some(x) => {
                let nd = arena.node(*x);
                nd.key.is_none() && nd.parent.is_none() && nd.left.is_none() && nd.right.is_none()
            },
        }
    }

    /// Compares two links by the keys of their nodes only.
    fn is_node_match(arena: &BstArena, anode: &BstNodeLink, bnode: &BstNodeLink) -> (r: bool)
        requires
            *anode < arena@.len(),
            *bnode < arena@.len(),
        ensures
            r == (arena@[*anode as int].key == arena@[*bnode as int].key),
    {
        if same_key(arena.node(*anode).key, arena.node(*bnode).key) {
            return true;
        }
        return false;
    }

    /// Turns a parent link into a strong link; it is always still alive.
    fn upgrade_weak_to_strong(node: Option<WeakBstNodeLink>) -> (r: Option<BstNodeLink>)
        ensures
            r == node,
    {
        match node {
            None => None,
            Some(x) => Some(x),
        }
    }

    fn leftmost_at(arena: &BstArena, i: BstNodeLink) -> (m: BstNodeLink)
        requires
            arena.wf(),
            i < arena@.len(),
        ensures
            m == arena.leftmost(i),
            m < arena@.len(),
        decreases arena.down(Some(i)),
    {
        let nd = arena.node(i);
        proof {
            assert(arena.fits(arena.nodes@[i as int], arena.rank@[i as int]));
        }
        if nd.key.is_some() {
            if let Some(l) = nd.left {
                return BstNode::leftmost_at(arena, l);
            }
        }
        i
    }

    fn rightmost_at(arena: &BstArena, i: BstNodeLink) -> (m: BstNodeLink)
        requires
            arena.wf(),
            i < arena@.len(),
        ensures
            m == arena.rightmost(i),
            m < arena@.len(),
        decreases arena.down(Some(i)),
    {
        let nd = arena.node(i);
        proof {
            assert(arena.fits(arena.nodes@[i as int], arena.rank@[i as int]));
        }
        if nd.key.is_some() {
            if let Some(r) = nd.right {
                return BstNode::rightmost_at(arena, r);
            }
        }
        i
    }

    /// Stores a copy of the node behind link `i`.
    fn copy_at(arena: &mut BstArena, i: BstNodeLink) -> (l: BstNodeLink)
        requires
            old(arena).wf(),
            i < old(arena)@.len(),
        ensures
            final(arena).wf(),
            final(arena)@ == old(arena)@.push(old(arena)@[i as int]),
            l == old(arena)@.len(),
            final(arena).ranks_kept(*old(arena)),
    {
        proof {
            arena.lemma_node_can_hold(i);
        }
        arena.node(i).get_bst_nodelink_copy(arena)
    }

    /// In a sorted subtree whose top is the node value `nd`, the node
    /// `minimum` copies holds the first key and the one `maximum` copies the
    /// last key.
    proof fn lemma_extreme_node(a: BstArena, nd: BstNode)
        requires
            a.wf(),
            a.can_hold(nd),
        ensures
            sorted_keys(a.node_keys(nd)) ==> a.min_node(nd).key == a.node_keys(nd)[0],
            sorted_keys(a.node_keys(nd)) ==> a.max_node(nd).key == a.node_keys(nd).last(),
    {
        let w = choose|w: int| a.fits(nd, w);
        let kl = a.keys(nd.left);
        let kr = a.keys(nd.right);
        let s = a.node_keys(nd);
        if sorted_keys(s) {
            lemma_sorted_split(kl, nd.key, kr);
            if let Some(l) = nd.left {
                lemma_keys_unfold(a, l);
                lemma_extremes(a, l);
                a.lemma_inorder_facts(Some(l));
                assert(s[0] == kl[0]);
            } else {
                assert(kl.len() == 0);
                assert(s[0] == nd.key);
            }
            if let Some(r) = nd.right {
                lemma_keys_unfold(a, r);
                lemma_extremes(a, r);
                a.lemma_inorder_facts(Some(r));
                assert(s.last() == kr.last());
            } else {
                assert(kr.len() == 0);
                assert(s.last() == nd.key);
            }
        }
    }

    /// Stores a copy of the node with the least key under this node (following
    /// left links while keys are present) and returns its link.
    pub fn minimum(&self, arena: &mut BstArena) -> (l: BstNodeLink)
        requires
            old(arena).wf(),
            old(arena).can_hold(*self),
        ensures
            final(arena).wf(),
            final(arena)@ == old(arena)@.push(old(arena).min_node(*self)),
            l == old(arena)@.len(),
            final(arena).ranks_kept(*old(arena)),
            sorted_keys(old(arena).node_keys(*self)) ==> final(arena)@[l as int].key == old(arena).node_keys(*self)[0],
    {
        proof {
            BstNode::lemma_extreme_node(*arena, *self);
        }
        if self.key.is_some() {
            if let Some(left_node) = self.left {
                let m = BstNode::leftmost_at(arena, left_node);
                return BstNode::copy_at(arena, m);
            }
        }
        self.get_bst_nodelink_copy(arena)
    }

    /// Stores a copy of the node with the greatest key under this node
    /// (following right links while keys are present) and returns its link.
    pub fn maximum(&self, arena: &mut BstArena) -> (l: BstNodeLink)
        requires
            old(arena).wf(),
            old(arena).can_hold(*self),
        ensures
            final(arena).wf(),
            final(arena)@ == old(arena)@.push(old(arena).max_node(*self)),
            l == old(arena)@.len(),
            final(arena).ranks_kept(*old(arena)),
            sorted_keys(old(arena).node_keys(*self)) ==> final(arena)@[l as int].key == old(arena).node_keys(*self).last(),
    {
        proof {
            BstNode::lemma_extreme_node(*arena, *self);
        }
        if self.key.is_some() {
            if let Some(right_node) = self.right {
                let m = BstNode::rightmost_at(arena, right_node);
                return BstNode::copy_at(arena, m);
            }
        }
        self.get_bst_nodelink_copy(arena)
    }

    fn search_at(arena: &BstArena, i: BstNodeLink, value: &i32) -> (r: Option<BstNodeLink>)
        requires
            arena.wf(),
            i < arena@.len(),
        ensures
            r == arena.search_idx(i, *value),
            arena.link_ok(r),
        decreases arena.down(Some(i)),
    {
        let nd = arena.node(i);
        proof {
            assert(arena.fits(arena.nodes@[i as int], arena.rank@[i as int]));
        }
        if let Some(key) = nd.key {
            if key == *value {
                return Some(i);
            }
            if *value < key && nd.left.is_some() {
                return BstNode::search_at(arena, nd.left.unwrap(), value);
            } else if nd.right.is_some() {
                return BstNode::search_at(arena, nd.right.unwrap(), value);
            }
        }
        None
    }

    /// Searches the tree under this node for `value`, going left for smaller
    /// values and right otherwise; stores a copy of the node found and
    /// returns its link.
    pub fn tree_search(&self, arena: &mut BstArena, value: &i32) -> (r: Option<BstNodeLink>)
        requires
            old(arena).wf(),
            old(arena).can_hold(*self),
        ensures
            final(arena).wf(),
            final(arena).ranks_kept(*old(arena)),
            match old(arena).search_node(*self, *value) {
                Some(found) => final(arena)@ == old(arena)@.push(found) && r == Some(old(arena)@.len() as usize),
                None => final(arena)@ == old(arena)@ && r is None,
            },
            sorted_keys(old(arena).node_keys(*self)) ==> {
                &&& (r is Some <==> old(arena).node_keys(*self).contains(Some(*value)))
                &&& (r matches Some(l) ==> final(arena)@[l as int].key == Some(*value))
            },
    {
        proof {
            if sorted_keys(arena.node_keys(*self)) {
                let w = choose|w: int| arena.fits(*self, w);
                lemma_search_node_correct(*arena, *self, *value);
            }
        }
        if let Some(key) = self.key {
            if key == *value {
                return Some(self.get_bst_nodelink_copy(arena));
            }
            let found = if *value < key && self.left.is_some() {
                BstNode::search_at(arena, self.left.unwrap(), value)
            } else if self.right.is_some() {
                BstNode::search_at(arena, self.right.unwrap(), value)
            } else {
                None
            };
            if let Some(j) = found {
                return Some(BstNode::copy_at(arena, j));
            }
        }
        None
    }

    /// The root of the tree that holds `node`, found by following parent links.
    pub fn get_root(arena: &BstArena, node: &BstNodeLink) -> (r: BstNodeLink)
        requires
            arena.wf(),
            *node < arena@.len(),
        ensures
            r == arena.root_of(*node),
            r < arena@.len(),
            arena@[r as int].parent is None,
        decreases arena.up(*node),
    {
        proof {
            lemma_root_has_no_parent(*arena, *node);
        }
        proof {
            assert(arena.fits(arena.nodes@[*node as int], arena.rank@[*node as int]));
        }
        let parent = BstNode::upgrade_weak_to_strong(arena.node(*node).parent);
        if parent.is_none() {
            return *node;
        }
        proof {
            assert(arena.rank@[parent->0 as int] <= arena.ceil@);
        }
        return BstNode::get_root(arena, &parent.unwrap());
    }

    /// Inserts `z` under the tree rooted at `node`: smaller-or-equal keys go
    /// left, greater keys go right, and the new node hangs where a missing
    /// child is met. Returns the root reached from the new node's parent, or
    /// the new node itself when `node` is absent.
    pub fn tree_insert(arena: &mut BstArena, node: &Option<BstNodeLink>, z: &i32) -> (r: BstNodeLink)
        requires
            old(arena).wf(),
            old(arena).link_ok(*node),
            *node matches Some(c) ==> old(arena).insert_path_ok(c, *z),
        ensures
            final(arena).wf(),
            final(arena).ranks_kept(*old(arena)),
            match *node {
                Some(c) => final(arena)@ == old(arena).inserted(c, *z) && r == old(arena).root_of(
                    old(arena).insert_spot(c, *z).0,
                ),
                None => final(arena)@ == old(arena)@.push(fresh_node(*z, None)) && r == old(arena)@.len(),
            },
            *node matches Some(c) ==> (old(arena).inorder(Some(c)).no_duplicates() && sorted_keys(old(arena).keys(Some(c)))
                ==> {
                &&& final(arena).inorder(Some(c)).no_duplicates()
                &&& sorted_keys(final(arena).keys(Some(c)))
                &&& final(arena).keys(Some(c)).to_multiset() == old(arena).keys(Some(c)).to_multiset().insert(Some(*z))
            }),
            *node matches Some(t) ==> (old(arena).linked_search_tree(t) && !old(arena).keys(Some(t)).contains(Some(*z))
                ==> final(arena).linked_search_tree(t)),
            *node matches Some(t) ==> (old(arena).linked_tree(t) && sorted_keys(old(arena).keys(Some(t)))
                ==> r == t && final(arena).linked_tree(t)),
            *node is None ==> final(arena).keys(Some(r)) == seq![Some(*z)],
        decreases old(arena).down(*node),
    {
        if let Some(current_node) = node {
            let c = *current_node;
            proof {
                assert(arena.fits(arena.nodes@[c as int], arena.rank@[c as int]));
                arena.lemma_node_can_hold(c);
            }
            let ghost a0 = *arena;
            if arena.node(c).key.unwrap() < *z {
                if BstNode::is_right_child_exist(arena, &c) {
                    let right_node = arena.node(c).right;
                    let r = BstNode::tree_insert(arena, &right_node, z);
                    proof {
                        BstNode::lemma_insert_law(a0, *arena, c, *z);
                    }
                    return r;
                } else {
                    let mut n = arena.node(c);
                    n.add_right_child(arena, &c, *z);
                    arena.set_node(c, n);
                }
            } else {
                if BstNode::is_left_child_exist(arena, &c) {
                    let left_node = arena.node(c).left;
                    let r = BstNode::tree_insert(arena, &left_node, z);
                    proof {
                        BstNode::lemma_insert_law(a0, *arena, c, *z);
                    }
                    return r;
                } else {
                    let mut n = arena.node(c);
                    n.add_left_child(arena, &c, *z);
                    arena.set_node(c, n);
                }
            }
            proof {
                assert(arena@ =~= a0.inserted(c, *z));
                assert forall|k: int| 0 <= k < a0@.len() implies (#[trigger] arena@[k]).parent == a0@[k].parent by {}
                a0.lemma_up_frame(*arena, c);
                BstNode::lemma_insert_law(a0, *arena, c, *z);
            }
            return BstNode::get_root(arena, &c);
        }
        let r = BstNode::new_bst_nodelink(arena, *z);
        proof {
            assert(arena.fits(arena.nodes@[r as int], arena.rank@[r as int]));
            lemma_keys_unfold(*arena, r);
            assert(arena.keys(Some(r)) =~= seq![Some(*z)]);
        }
        r
    }

    /// The law of `tree_insert` on a sorted subtree without repeated nodes.
    proof fn lemma_insert_law(a0: BstArena, a: BstArena, c: usize, z: i32)
        requires
            a0.wf(),
            a.wf(),
            c < a0@.len(),
            a0.insert_path_ok(c, z),
            a@ == a0.inserted(c, z),
        ensures
            a0.inorder(Some(c)).no_duplicates() && sorted_keys(a0.keys(Some(c))) ==> {
                &&& a.inorder(Some(c)).no_duplicates()
                &&& sorted_keys(a.keys(Some(c)))
                &&& a.keys(Some(c)).to_multiset() == a0.keys(Some(c)).to_multiset().insert(Some(z))
            },
            a0.linked_search_tree(c) && !a0.keys(Some(c)).contains(Some(z)) ==> a.linked_search_tree(c),
            a0.linked_tree(c) && sorted_keys(a0.keys(Some(c))) ==> a0.root_of(a0.insert_spot(c, z).0) == c
                && a.linked_tree(c),
    {
        assert(a.nodes.len() == a.nodes@.len());
        if a0.inorder(Some(c)).no_duplicates() && sorted_keys(a0.keys(Some(c))) {
            lemma_insert_sorted(a0, a, c, z);
        }
        if a0.linked_search_tree(c) && !a0.keys(Some(c)).contains(Some(z)) {
            lemma_insert_keeps_search_tree(a0, a, c, z);
        }
        if a0.linked_tree(c) && sorted_keys(a0.keys(Some(c))) {
            lemma_insert_keeps_linked(a0, a, c, z);
            lemma_spot_facts(a0, c, z);
            lemma_root_of_tree_node(a0, c, a0.insert_spot(c, z).0);
        }
    }

    /// The node after `x_node` in key order: the least node of its right
    /// subtree (stored as a copy), or else the first ancestor reached from
    /// the left, matched by key.
    pub fn tree_successor(arena: &mut BstArena, x_node: &BstNodeLink) -> (r: Option<BstNodeLink>)
        requires
            old(arena).wf(),
            *x_node < old(arena)@.len(),
        ensures
            final(arena).wf(),
            final(arena).ranks_kept(*old(arena)),
            match old(arena)@[*x_node as int].right {
                Some(rt) => final(arena)@ == old(arena)@.push(old(arena).min_node(old(arena)@[rt as int]))
                    && r == Some(old(arena)@.len() as usize),
                None => final(arena)@ == old(arena)@ && r == old(arena).succ_walk(*x_node),
            },
            forall|t: usize, i: int|
                #![trigger old(arena).linked_search_tree(t), old(arena).inorder(Some(t))[i]]
                old(arena).linked_search_tree(t) && 0 <= i < old(arena).inorder(Some(t)).len()
                    && old(arena).inorder(Some(t))[i] == *x_node ==> BstArena::successor_found(
                    *old(arena),
                    *final(arena),
                    t,
                    i,
                    r,
                ),
    {
        let ghost a0 = *arena;
        proof {
            assert(arena.fits(arena.nodes@[*x_node as int], arena.rank@[*x_node as int]));
        }
        if let Some(right_node) = arena.node(*x_node).right {
            proof {
                arena.lemma_node_can_hold(right_node);
            }
            let l = arena.node(right_node).minimum(arena);
            proof {
                assert(arena.nodes.len() == arena@.len());
                BstNode::lemma_successor_ensures(a0, *arena, *x_node, Some(l));
            }
            return Some(l);
        }
        let mut x = *x_node;
        let mut y = BstNode::upgrade_weak_to_strong(arena.node(x).parent);
        let ghost a = *arena;
        loop
            invariant
                *arena == a,
                a == *old(arena),
                a@[*x_node as int].right is None,
                *x_node < a@.len(),
                a.wf(),
                x < a@.len(),
                y == a@[x as int].parent,
                a.succ_walk(x) == a.succ_walk(*x_node),
            decreases a.up(x),
        {
            proof {
                assert(a.fits(a.nodes@[x as int], a.rank@[x as int]));
            }
            match y {
                None => {
                    proof {
                        assert(arena.nodes.len() == arena@.len());
                        BstNode::lemma_successor_ensures(a, *arena, *x_node, None);
                    }
                    return None;
                },
                Some(e) => {
                    proof {
                        assert(a.fits(a.nodes@[e as int], a.rank@[e as int]));
                        assert(a.rank@[e as int] <= a.ceil@);
                    }
                    if let Some(left_child) = arena.node(e).left {
                        if BstNode::is_node_match(arena, &left_child, &x) {
                            proof {
                                assert(arena.nodes.len() == arena@.len());
                                BstNode::lemma_successor_ensures(a, *arena, *x_node, Some(e));
                            }
                            return Some(e);
                        }
                    }
                    x = e;
                    y = BstNode::upgrade_weak_to_strong(arena.node(e).parent);
                },
            }
        }
    }

    proof fn lemma_successor_ensures(a0: BstArena, a: BstArena, x: usize, r: Option<usize>)
        requires
            a0.wf(),
            x < a0@.len(),
            a@.len() <= usize::MAX,
            match a0@[x as int].right {
                Some(rt) => a@ == a0@.push(a0.min_node(a0@[rt as int])) && r == Some(a0@.len() as usize),
                None => a@ == a0@ && r == a0.succ_walk(x),
            },
        ensures
            forall|t: usize, i: int|
                #![trigger a0.linked_search_tree(t), a0.inorder(Some(t))[i]]
                a0.linked_search_tree(t) && 0 <= i < a0.inorder(Some(t)).len() && a0.inorder(Some(t))[i] == x
                    ==> BstArena::successor_found(a0, a, t, i, r),
    {
        assert forall|t: usize, i: int|
            #![trigger a0.linked_search_tree(t), a0.inorder(Some(t))[i]]
            a0.linked_search_tree(t) && 0 <= i < a0.inorder(Some(t)).len() && a0.inorder(Some(t))[i] == x
                implies BstArena::successor_found(a0, a, t, i, r) by {
            lemma_successor_law(a0, t, x, i);
            a0.lemma_inorder_facts(Some(t));
            let s = a0.inorder(Some(t));
            if i + 1 < s.len() {
                assert(s.contains(s[i + 1]));
            }
        }
    }

    /// The last node on the right spine of the left subtree of `node`, or
    /// nothing when `node` or its left child is absent.
    pub fn tree_predecessor(arena: &BstArena, node: &Option<BstNodeLink>) -> (r: Option<BstNodeLink>)
        requires
            arena.wf(),
            arena.link_ok(*node),
        ensures
            r == arena.pred_of(*node),
            *node matches Some(i) ==> (arena@[i as int].left matches Some(l) ==> r == Some(arena.inorder(Some(l)).last())),
            *node matches Some(x) ==> r != Some(x),
            *node matches Some(x) ==> (arena@[x as int].left is None ==> r is None),
            *node matches Some(x) ==> (r matches Some(p) ==> arena.inorder(arena@[x as int].left).contains(p)),
            *node matches Some(x) ==> (r matches Some(p) ==> (strictly_sorted_keys(arena.keys(Some(x)))
                ==> arena@[p as int].key->0 < arena@[x as int].key->0)),
            *node matches Some(x) ==> forall|t: usize, i: int|
                #![trigger arena.inorder(Some(t))[i]]
                t < arena@.len() && arena.inorder(Some(t)).no_duplicates() && 0 <= i < arena.inorder(Some(t)).len()
                    && arena.inorder(Some(t))[i] == x && arena@[x as int].left is Some
                    ==> i > 0 && r == Some(arena.inorder(Some(t))[i - 1]),
    {
        proof {
            if let Some(i) = *node {
                lemma_predecessor_facts(*arena, i);
                assert(arena.fits(arena.nodes@[i as int], arena.rank@[i as int]));
                if let Some(l) = arena@[i as int].left {
                    lemma_last_right(*arena, l);
                }
                assert forall|t: usize, j: int|
                    #![trigger arena.inorder(Some(t))[j]]
                    t < arena@.len() && arena.inorder(Some(t)).no_duplicates() && 0 <= j < arena.inorder(Some(t)).len()
                        && arena.inorder(Some(t))[j] == i && arena@[i as int].left is Some
                        implies j > 0 && arena.pred_of(*node) == Some(arena.inorder(Some(t))[j - 1]) by {
                    lemma_predecessor_law(*arena, t, i, j);
                }
            }
        }
        let n0 = match node {
            Some(n) => *n,
            None => {
                return None;
            },
        };
        proof {
            assert(arena.fits(arena.nodes@[n0 as int], arena.rank@[n0 as int]));
        }
        let mut current = arena.node(n0).left;
        if current.is_none() {
            return None;
        }
        let ghost start = current->0;
        loop
            invariant
                arena.wf(),
                current is Some,
                current->0 < arena@.len(),
                start < arena@.len(),
                arena.last_right(current->0) == arena.last_right(start),
            ensures
                current is Some,
                current->0 == arena.last_right(start),
            decreases arena.down(current),
        {
            let n = current.unwrap();
            proof {
                assert(arena.fits(arena.nodes@[n as int], arena.rank@[n as int]));
            }
            if arena.node(n).right.is_some() {
                current = arena.node(n).right;
            } else {
                break;
            }
        }
        current
    }

    fn count_nodes(arena: &BstArena, node: &Option<BstNodeLink>) -> (c: usize)
        requires
            arena.wf(),
            arena.link_ok(*node),
            arena.inorder(*node).len() <= usize::MAX,
        ensures
            c == arena.inorder(*node).len(),
        decreases arena.down(*node),
    {
        if let Some(n) = node {
            proof {
                assert(arena.fits(arena.nodes@[*n as int], arena.rank@[*n as int]));
            }
            let nd = arena.node(*n);
            1 + BstNode::count_nodes(arena, &nd.left) + BstNode::count_nodes(arena, &nd.right)
        } else {
            0
        }
    }

    fn inorder_find(arena: &BstArena, node: &Option<BstNodeLink>, count: &mut usize, target: usize) -> (r: Option<BstNodeLink>)
        requires
            arena.wf(),
            arena.link_ok(*node),
            *old(count) + arena.inorder(*node).len() <= usize::MAX,
        ensures
            ({
                let s = arena.inorder(*node);
                if *old(count) <= target < *old(count) + s.len() {
                    r == Some(s[target - *old(count)]) && *final(count) == target
                } else {
                    r is None && *final(count) == *old(count) + s.len()
                }
            }),
        decreases arena.down(*node),
    {
        if let Some(n) = node {
            proof {
                assert(arena.fits(arena.nodes@[*n as int], arena.rank@[*n as int]));
            }
            let nd = arena.node(*n);
            let ghost sl = arena.inorder(nd.left);
            let ghost sr = arena.inorder(nd.right);
            let ghost s = arena.inorder(*node);
            assert(s == sl + seq![*n] + sr);
            let left = BstNode::inorder_find(arena, &nd.left, count, target);
            if left.is_some() {
                return left;
            }
            if *count == target {
                return Some(*n);
            }
            *count += 1;
            BstNode::inorder_find(arena, &nd.right, count, target)
        } else {
            None
        }
    }

    /// The middle node, in key order, of the tree under `root`: the one at
    /// position `n / 2` (counting from 0) of its `n` nodes.
    pub fn median(&self, arena: &BstArena, root: &Option<BstNodeLink>) -> (r: Option<BstNodeLink>)
        requires
            arena.wf(),
            arena.link_ok(*root),
            arena.inorder(*root).len() <= usize::MAX,
        ensures
            ({
                let s = arena.inorder(*root);
                match *root {
                    None => r is None,
                    Some(_) => r == Some(s[(s.len() / 2) as int]),
                }
            }),
    {
        proof {
            arena.lemma_inorder_facts(*root);
        }
        let total = BstNode::count_nodes(arena, root);
        let mut count: usize = 0;
        BstNode::inorder_find(arena, root, &mut count, total / 2)
    }

    fn find_and_add(arena: &mut BstArena, current: &Option<BstNodeLink>, target: &Option<BstNodeLink>, value: i32) -> (r: bool)
        requires
            old(arena).wf(),
            old(arena).link_ok(*current),
            old(arena).link_ok(*target),
        ensures
            final(arena).wf(),
            final(arena).ranks_kept(*old(arena)),
            r == (*target matches Some(t) && old(arena).inorder(*current).contains(t)
                && BstArena::attachable(old(arena)@[t as int], value)),
            r ==> final(arena)@ == old(arena)@.push(fresh_node(value, Some(target->0))).update(
                target->0 as int,
                BstArena::attach(old(arena)@[target->0 as int], value, old(arena)@.len() as usize),
            ),
            !r ==> final(arena)@ == old(arena)@ && final(arena).rank@ == old(arena).rank@
                && final(arena).floor@ == old(arena).floor@ && final(arena).ceil@ == old(arena).ceil@,
        decreases old(arena).down(*current),
    {
        proof {
            arena.lemma_inorder_facts(*current);
        }
        if let (Some(curr_rc), Some(target_rc)) = (current, target) {
            let curr_i = *curr_rc;
            let t = *target_rc;
            proof {
                assert(arena.fits(arena.nodes@[curr_i as int], arena.rank@[curr_i as int]));
                arena.lemma_node_can_hold(curr_i);
            }
            if curr_i == t {
                let mut curr = arena.node(curr_i);
                let less = match curr.key {
                    Some(k) => value < k,
                    None => false,
                };
                if less && curr.left.is_none() {
                    curr.add_left_child(arena, &curr_i, value);
                    arena.set_node(curr_i, curr);
                    return true;
                } else if curr.right.is_none() {
                    curr.add_right_child(arena, &curr_i, value);
                    arena.set_node(curr_i, curr);
                    return true;
                }
                return false;
            }
            let curr = arena.node(curr_i);
            proof {
                arena.lemma_inorder_facts(curr.left);
                arena.lemma_inorder_facts(curr.right);
            }
            let ghost a0 = *arena;
            if BstNode::find_and_add(arena, &curr.left, target, value) {
                return true;
            }
            let ghost a1 = *arena;
            proof {
                if let Some(rt) = curr.right {
                    assert forall|k: usize| #[trigger] a0.inorder(curr.right).contains(k) implies k < a1@.len() && k < a0@.len() && a1@[k as int] == a0@[k as int] by {}
                    a0.lemma_frame(a1, rt);
                }
            }
            let r = BstNode::find_and_add(arena, &curr.right, target, value);
            proof {
                let s = a0.inorder(*current);
                assert(s == a0.inorder(curr.left) + seq![curr_i] + a0.inorder(curr.right));
                if s.contains(t) {
                    let j = choose|j: int| 0 <= j < s.len() && s[j] == t;
                    if j < a0.inorder(curr.left).len() {
                        assert(a0.inorder(curr.left)[j] == t);
                    } else if j > a0.inorder(curr.left).len() {
                        assert(a0.inorder(curr.right)[j - a0.inorder(curr.left).len() - 1] == t);
                    }
                }
            }
            r
        } else {
            false
        }
    }

    /// Looks for `target_node` in the tree under `root` (this node itself
    /// first, then its left subtree, then its right one) and hangs a new node
    /// holding `value` under it: as left child when `value` is below its key
    /// and that slot is free, else as right child when that slot is free.
    /// Returns whether a node was added.
    pub fn add_node(&self, arena: &mut BstArena, root: &Option<BstNodeLink>, target_node: &Option<BstNodeLink>, value: i32) -> (r: bool)
        requires
            old(arena).wf(),
            old(arena).link_ok(*root),
            old(arena).link_ok(*target_node),
        ensures
            final(arena).wf(),
            final(arena).ranks_kept(*old(arena)),
            r == (*target_node matches Some(t) && old(arena).inorder(*root).contains(t)
                && BstArena::attachable(old(arena)@[t as int], value)),
            r ==> final(arena)@ == old(arena)@.push(fresh_node(value, Some(target_node->0))).update(
                target_node->0 as int,
                BstArena::attach(old(arena)@[target_node->0 as int], value, old(arena)@.len() as usize),
            ),
            !r ==> final(arena)@ == old(arena)@,
            r ==> ({
                let t = target_node->0 as int;
                let nd = old(arena)@[t];
                let x = old(arena)@.len() as usize;
                &&& final(arena)@.len() == x + 1
                &&& final(arena)@[x as int] == fresh_node(value, Some(target_node->0))
                &&& final(arena)@[t].key == nd.key
                &&& final(arena)@[t].parent == nd.parent
                &&& (nd.key is Some && value < nd.key->0 && nd.left is None) ==> final(arena)@[t].left == Some(x)
                    && final(arena)@[t].right == nd.right
                &&& !(nd.key is Some && value < nd.key->0 && nd.left is None) ==> final(arena)@[t].right == Some(x)
                    && final(arena)@[t].left == nd.left
                &&& forall|k: int| 0 <= k < x && k != t ==> #[trigger] final(arena)@[k] == old(arena)@[k]
            }),
    {
        let len0 = arena.len();
        let r = BstNode::find_and_add(arena, root, target_node, value);
        proof {
            if r {
                let t = target_node->0;
                let x = old(arena)@.len() as usize;
                assert(x == len0);
                lemma_attach_side(old(arena)@[t as int], value, x);
                assert(t < x);
                assert(arena@[t as int] == BstArena::attach(old(arena)@[t as int], value, x));
                assert(arena@[x as int] == fresh_node(value, Some(t)));
            }
        }
        r
    }

    fn build_range(arena: &mut BstArena, nodes: &[BstNodeLink], lo: usize, hi: usize, parent: Option<BstNodeLink>) -> (r: Option<BstNodeLink>)
        requires
            old(arena).wf(),
            lo <= hi <= nodes@.len(),
            forall|k: int| 0 <= k < nodes@.len() ==> #[trigger] nodes@[k] < old(arena)@.len(),
            old(arena).link_ok(parent),
        ensures
            final(arena).wf(),
            old(arena).extended_by(*final(arena)),
            final(arena).ranks_kept(*old(arena)),
            final(arena).floor@ <= old(arena).floor@,
            final(arena).balanced_layout(r, old(arena).keys_of(nodes@.subrange(lo as int, hi as int)), parent),
            final(arena)@.len() == old(arena)@.len() + (hi - lo),
            forall|k: usize| #[trigger] final(arena).inorder(r).contains(k) ==> old(arena)@.len() <= k < final(arena)@.len(),
            r matches Some(i) ==> final(arena).rank@[i as int] < old(arena).floor@,
        decreases hi - lo,
    {
        let ghost a0 = *arena;
        let ghost ks = a0.keys_of(nodes@.subrange(lo as int, hi as int));
        if lo == hi {
            proof {
                assert(ks.len() == 0);
                a0.lemma_inorder_facts(None);
            }
            return None;
        }
        let mid = lo + (hi - lo) / 2;
        let key = arena.node(nodes[mid]).key;
        let root = arena.push_leaf(BstNode { key: key, left: None, right: None, parent: parent });
        let ghost a1 = *arena;
        let left = BstNode::build_range(arena, nodes, lo, mid, Some(root));
        let ghost a2 = *arena;
        proof {
            assert forall|k: int| 0 <= k < nodes@.len() implies #[trigger] nodes@[k] < a2@.len() by {
                assert(nodes@[k] < a0@.len());
            }
        }
        let right = BstNode::build_range(arena, nodes, mid + 1, hi, Some(root));
        let ghost a3 = *arena;
        proof {
            assert(a1.extended_by(a2));
            assert(a2.extended_by(a3));
            assert(a3@[root as int] == a1@[root as int]);
            assert(a3.rank@[root as int] == a1.rank@[root as int]);
            if let Some(l) = left {
                assert(a2.inorder(left).contains(l)) by { a2.lemma_inorder_facts(left); }
                assert(a3.rank@[l as int] == a2.rank@[l as int]);
            }
            if let Some(rr) = right {
                assert(a3.inorder(right).contains(rr)) by { a3.lemma_inorder_facts(right); }
            }
        }
        let ghost nd_new = BstNode { key: key, left: left, right: right, parent: parent };
        arena.set_node(root, BstNode { key: key, left: left, right: right, parent: parent });
        let ghost a4 = *arena;
        proof {
            let m = (ks.len() / 2) as int;
            assert(mid - lo == m);
            let kl = a0.keys_of(nodes@.subrange(lo as int, mid as int));
            let kr = a0.keys_of(nodes@.subrange(mid + 1, hi as int));
            assert(kl =~= ks.subrange(0, m));
            assert(kr =~= ks.subrange(m + 1, ks.len() as int));
            assert(a1.keys_of(nodes@.subrange(lo as int, mid as int)) =~= kl) by {
                assert forall|k: int| 0 <= k < nodes@.len() implies #[trigger] a1@[nodes@[k] as int] == a0@[nodes@[k] as int] by {
                    assert(nodes@[k] < a0@.len());
                }
            }
            assert(a2.keys_of(nodes@.subrange(mid + 1, hi as int)) =~= kr) by {
                assert forall|k: int| 0 <= k < nodes@.len() implies #[trigger] a2@[nodes@[k] as int] == a0@[nodes@[k] as int] by {
                    assert(nodes@[k] < a0@.len());
                }
            }
            assert(ks[m] == key) by {
                assert(nodes@[mid as int] < a0@.len());
            }
            a2.lemma_inorder_facts(left);
            a3.lemma_inorder_facts(right);
            // the left subtree is untouched by building the right one and by setting the root
            assert(a2.same_on(a4, a2.inorder(left)));
            a2.lemma_layout_frame(a4, left, kl, Some(root));
            assert(a3.same_on(a4, a3.inorder(right)));
            a3.lemma_layout_frame(a4, right, kr, Some(root));
            if let Some(l) = left {
                assert(a2.same_shape_on(a4, a2.inorder(left)));
                a2.lemma_frame(a4, l);
            }
            if let Some(rr) = right {
                assert(a3.same_shape_on(a4, a3.inorder(right)));
                a3.lemma_frame(a4, rr);
            }
            assert(a4.inorder(left) == a2.inorder(left));
            assert(a4.inorder(right) == a3.inorder(right));
            assert(a4@[root as int] == nd_new);
            assert(a4.balanced_layout(Some(root), ks, parent));
            let s = a4.inorder(Some(root));
            assert(s == a4.inorder(left) + seq![root] + a4.inorder(right));
            assert forall|k: usize| #[trigger] s.contains(k) implies a0@.len() <= k < a4@.len() by {
                let j = choose|j: int| 0 <= j < s.len() && s[j] == k;
                if j < a4.inorder(left).len() {
                    assert(a2.inorder(left).contains(k));
                } else if j > a4.inorder(left).len() {
                    assert(a3.inorder(right)[j - a4.inorder(left).len() - 1] == k);
                    assert(a3.inorder(right).contains(k));
                }
            }
        }
        Some(root)
    }

    /// Builds a fresh, size-balanced tree from the keys of `nodes` (taken in
    /// order): the middle key at the top, the keys before it on the left and
    /// the keys after it on the right. Returns its root.
    fn build_balanced(arena: &mut BstArena, nodes: &[BstNodeLink], parent: Option<WeakBstNodeLink>) -> (r: Option<BstNodeLink>)
        requires
            old(arena).wf(),
            forall|k: int| 0 <= k < nodes@.len() ==> #[trigger] nodes@[k] < old(arena)@.len(),
            old(arena).link_ok(parent),
        ensures
            final(arena).wf(),
            old(arena).extended_by(*final(arena)),
            final(arena).ranks_kept(*old(arena)),
            final(arena).balanced_layout(r, old(arena).keys_of(nodes@), parent),
            final(arena)@.len() == old(arena)@.len() + nodes@.len(),
            forall|k: usize| #[trigger] final(arena).inorder(r).contains(k) ==> old(arena)@.len() <= k < final(arena)@.len(),
    {
        let r = BstNode::build_range(arena, nodes, 0, nodes.len(), parent);
        proof {
            assert(nodes@.subrange(0, nodes@.len() as int) =~= nodes@);
        }
        r
    }

    fn inorder_collect(arena: &BstArena, node: &Option<BstNodeLink>, nodes: &mut Vec<BstNodeLink>)
        requires
            arena.wf(),
            arena.link_ok(*node),
        ensures
            final(nodes)@ == old(nodes)@ + arena.inorder(*node),
        decreases arena.down(*node),
    {
        if let Some(n) = node {
            proof {
                assert(arena.fits(arena.nodes@[*n as int], arena.rank@[*n as int]));
            }
            let nd = arena.node(*n);
            BstNode::inorder_collect(arena, &nd.left, nodes);
            nodes.push(*n);
            BstNode::inorder_collect(arena, &nd.right, nodes);
            proof {
                assert(final(nodes)@ =~= old(nodes)@ + arena.inorder(*node));
            }
        }
    }

    /// Builds a fresh size-balanced tree holding the keys of the tree under
    /// `node`, in the same order, and returns its root. The old tree is left
    /// as it was.
    pub fn tree_rebalance(arena: &mut BstArena, node: &Option<BstNodeLink>) -> (r: Option<BstNodeLink>)
        requires
            old(arena).wf(),
            old(arena).link_ok(*node),
        ensures
            final(arena).wf(),
            old(arena).extended_by(*final(arena)),
            final(arena).ranks_kept(*old(arena)),
            final(arena).balanced_layout(r, old(arena).keys(*node), None),
            final(arena)@.len() == old(arena)@.len() + old(arena).inorder(*node).len(),
            forall|k: usize| #[trigger] final(arena).inorder(r).contains(k) ==> old(arena)@.len() <= k < final(arena)@.len(),
            final(arena).keys(r) == old(arena).keys(*node),
            final(arena).size_balanced(r),
            r is Some <==> *node is Some,
            r matches Some(t) ==> (strictly_sorted_keys(old(arena).keys(*node)) ==> final(arena).linked_search_tree(t)),
    {
        let mut nodes: Vec<BstNodeLink> = Vec::new();
        BstNode::inorder_collect(arena, node, &mut nodes);
        proof {
            arena.lemma_inorder_facts(*node);
            assert(nodes@ =~= arena.inorder(*node));
            assert forall|k: int| 0 <= k < nodes@.len() implies #[trigger] nodes@[k] < arena@.len() by {
                assert(arena.inorder(*node).contains(nodes@[k]));
            }
            assert(arena.keys_of(nodes@) =~= arena.keys(*node));
        }
        let r = BstNode::build_balanced(arena, nodes.as_slice(), None);
        proof {
            let ks = old(arena).keys(*node);
            arena.lemma_layout_keys(r, ks, None);
            arena.lemma_layout_links(r, ks, None);
            old(arena).lemma_inorder_facts(*node);
            if let Some(t) = r {
                if strictly_sorted_keys(ks) {
                    arena.lemma_strict_keys_no_dup_nodes(r);
                    arena.lemma_inorder_facts(r);
                }
            }
        }
        r
    }

    /// Sets the parent link of node `i`.
    fn link_parent(arena: &mut BstArena, i: BstNodeLink, p: Option<BstNodeLink>)
        requires
            old(arena).wf(),
            old(arena).admits_at(i, with_parent(old(arena)@[i as int], p)),
        ensures
            final(arena).wf(),
            final(arena)@ == set_parent(old(arena)@, i, p),
            final(arena).rank@ == old(arena).rank@,
            final(arena).floor@ == old(arena).floor@,
            final(arena).ceil@ == old(arena).ceil@,
    {
        let nd = arena.node(i);
        arena.set_node(i, BstNode { parent: p, ..nd });
    }

    /// Sets the left child link of node `i`.
    fn link_left(arena: &mut BstArena, i: BstNodeLink, l: Option<BstNodeLink>)
        requires
            old(arena).wf(),
            old(arena).admits_at(i, with_left(old(arena)@[i as int], l)),
        ensures
            final(arena).wf(),
            final(arena)@ == set_left(old(arena)@, i, l),
            final(arena).rank@ == old(arena).rank@,
            final(arena).floor@ == old(arena).floor@,
            final(arena).ceil@ == old(arena).ceil@,
    {
        let nd = arena.node(i);
        arena.set_node(i, BstNode { left: l, ..nd });
    }

    /// Sets the right child link of node `i`.
    fn link_right(arena: &mut BstArena, i: BstNodeLink, r: Option<BstNodeLink>)
        requires
            old(arena).wf(),
            old(arena).admits_at(i, with_right(old(arena)@[i as int], r)),
        ensures
            final(arena).wf(),
            final(arena)@ == set_right(old(arena)@, i, r),
            final(arena).rank@ == old(arena).rank@,
            final(arena).floor@ == old(arena).floor@,
            final(arena).ceil@ == old(arena).ceil@,
    {
        let nd = arena.node(i);
        arena.set_node(i, BstNode { right: r, ..nd });
    }

    /// Whether the optional link `a` is the link `b` itself.
    fn is_link(a: Option<BstNodeLink>, b: BstNodeLink) -> (r: bool)
        ensures
            r == (a == Some(b)),
    {
        match a {
            Some(x) => x == b,
            None => false,
        }
    }

    /// Puts `v` in the place of `u`: the slot of `u`'s parent that holds `u`
    /// takes `v`, and `v` takes `u`'s parent (none when `u` is a top).
    /// Returns `v`.
    fn transplant(arena: &mut BstArena, u: &BstNodeLink, v: &Option<BstNodeLink>) -> (r: Option<BstNodeLink>)
        requires
            old(arena).wf(),
            *u < old(arena)@.len(),
            *v matches Some(x) ==> x < old(arena)@.len() && (old(arena)@[*u as int].parent matches Some(p)
                ==> old(arena).rank@[x as int] < old(arena).rank@[p as int]),
        ensures
            r == *v,
            final(arena).wf(),
            final(arena)@ == transplanted(old(arena)@, *u, *v),
            final(arena).rank@ == old(arena).rank@,
            final(arena).floor@ == old(arena).floor@,
            final(arena).ceil@ == old(arena).ceil@,
    {
        let ghost a0 = *arena;
        let p = arena.node(*u).parent;
        proof {
            assert(a0.fits(a0.nodes@[*u as int], a0.rank@[*u as int]));
        }
        if let Some(q) = p {
            proof {
                assert(a0.fits(a0.nodes@[q as int], a0.rank@[q as int]));
            }
            if BstNode::is_link(arena.node(q).left, *u) {
                BstNode::link_left(arena, q, *v);
            } else {
                BstNode::link_right(arena, q, *v);
            }
        }
        if let Some(x) = *v {
            proof {
                assert(a0.fits(a0.nodes@[x as int], a0.rank@[x as int]));
                if let Some(q) = p {
                    assert(x != q);
                }
                assert(arena@[x as int] == a0@[x as int]);
            }
            BstNode::link_parent(arena, x, p);
        }
        *v
    }

    /// Removes `node`, which must have a child, from its tree: a node missing
    /// a child is replaced by its other child; a node with both children is replaced
    /// by a copy of the least node of its right subtree, which takes over both
    /// children while that least node is taken out. Returns the node put in
    /// its place.
    pub fn tree_delete(arena: &mut BstArena, node: &BstNodeLink) -> (r: BstNodeLink)
        requires
            old(arena).wf(),
            *node < old(arena)@.len(),
            old(arena)@[*node as int].left is Some || old(arena)@[*node as int].right is Some,
            old(arena)@[*node as int].left is Some && old(arena)@[*node as int].right is Some ==> old(arena)@.len() < usize::MAX,
        ensures
            final(arena).wf(),
            final(arena)@ == old(arena).deleted(*node),
            Some(r) == old(arena).delete_result(*node),
            forall|t: usize, i: int|
                #![trigger old(arena).linked_search_tree(t), old(arena).inorder(Some(t))[i]]
                old(arena).linked_search_tree(t) && 0 <= i < old(arena).inorder(Some(t)).len()
                    && old(arena).inorder(Some(t))[i] == *node ==> ({
                    let top = if *node == t { r } else { t };
                    &&& final(arena).keys(Some(top)) == old(arena).keys(Some(t)).remove(i)
                    &&& final(arena).linked_search_tree(top)
                }),
    {
        let n = *node;
        let ghost a0 = *arena;
        let nd = arena.node(n);
        proof {
            assert(a0.fits(a0.nodes@[n as int], a0.rank@[n as int]));
            if let Some(x) = nd.left {
                assert(a0.rank@[x as int] < a0.rank@[n as int]);
            }
            if let Some(pp) = nd.parent {
                assert(a0.rank@[n as int] < a0.rank@[pp as int]);
            }
        }
        let r: BstNodeLink;
        if nd.left.is_none() {
            let v = nd.right.unwrap();
            BstNode::transplant(arena, &n, &Some(v));
            r = v;
        } else if nd.right.is_none() {
            let v = nd.left.unwrap();
            BstNode::transplant(arena, &n, &Some(v));
            r = v;
        } else {
            let l = nd.left.unwrap();
            let rt = nd.right.unwrap();
            let m = BstNode::leftmost_at(arena, rt);
            proof {
                a0.lemma_leftmost_facts(rt);
                arena.lemma_node_can_hold(rt);
                assert(a0.min_node(a0@[rt as int]) == a0@[m as int]);
                assert(a0.fits(a0.nodes@[m as int], a0.rank@[m as int]));
                assert(a0.fits(a0.nodes@[rt as int], a0.rank@[rt as int]));
            }
            let c = arena.node(rt).minimum(arena);
            let mn = arena.node(m);
            let cright = if BstNode::is_link(mn.parent, n) { mn.right } else { Some(rt) };
            let ghost cn = BstNode { key: mn.key, parent: nd.parent, left: Some(l), right: cright };
            proof {
                assert(cn == a0.successor_copy(n));
                assert(arena.nodes.len() == arena@.len());
            }
            arena.put(c, BstNode { key: mn.key, parent: nd.parent, left: Some(l), right: cright });
            arena.rank = Ghost(arena.rank@.update(c as int, a0.rank@[n as int]));
            proof {
                assert(arena@ =~= a0@.push(cn));
                assert(a0.floor@ <= a0.rank@[n as int] <= a0.ceil@);
                assert forall|k: int| 0 <= k < arena@.len() implies arena.fits(#[trigger] arena.nodes@[k], arena.rank@[k]) by {
                    if k < a0@.len() {
                        assert(a0.fits(a0.nodes@[k], a0.rank@[k]));
                    } else {
                        if let Some(pp) = nd.parent {
                            assert(a0.rank@[n as int] < a0.rank@[pp as int]);
                        }
                    }
                }
                assert forall|k: int| 0 <= k < arena@.len() implies arena.floor@ <= #[trigger] arena.rank@[k] <= arena.ceil@ by {
                    if k < a0@.len() {
                        assert(arena.rank@[k] == a0.rank@[k]);
                    }
                }
            }
            if BstNode::is_link(mn.parent, n) {
                if let Some(x) = mn.right {
                    proof {
                        assert(a0.fits(a0.nodes@[x as int], a0.rank@[x as int]));
                        assert(arena@[x as int] == a0@[x as int]);
                    }
                    BstNode::link_parent(arena, x, Some(c));
                }
            } else {
                proof {
                    if let Some(pm) = mn.parent {
                        assert(a0.rank@[m as int] < a0.rank@[pm as int]);
                        assert(pm < a0@.len());
                    }
                    if let Some(x) = mn.right {
                        assert(a0.rank@[x as int] < a0.rank@[m as int]);
                    }
                }
                BstNode::transplant(arena, &m, &mn.right);
                proof {
                    assert(arena.fits(arena.nodes@[rt as int], arena.rank@[rt as int]));
                }
                BstNode::link_parent(arena, rt, Some(c));
            }
            proof {
                assert(arena.fits(arena.nodes@[l as int], arena.rank@[l as int]));
                assert(a0.rank@[l as int] < a0.rank@[n as int]);
            }
            BstNode::link_parent(arena, l, Some(c));
            proof {
                if let Some(pp) = nd.parent {
                    assert(pp < a0@.len());
                    assert(arena.rank@[pp as int] == a0.rank@[pp as int]);
                }
            }
            BstNode::transplant(arena, &n, &Some(c));
            r = c;
        }
        proof {
            assert(arena@ == a0.deleted(n));
            assert forall|t: usize, i: int|
                #![trigger a0.linked_search_tree(t), a0.inorder(Some(t))[i]]
                a0.linked_search_tree(t) && 0 <= i < a0.inorder(Some(t)).len() && a0.inorder(Some(t))[i] == n implies ({
                    let top = if n == t { r } else { t };
                    &&& arena.keys(Some(top)) == a0.keys(Some(t)).remove(i)
                    &&& arena.linked_search_tree(top)
                }) by {
                lemma_delete_law(a0, *arena, t, n, i);
            }
        }
        r
    }

    /// A variant of `tree_successor` built on `is_nil`: when the right child
    /// of `x_node` is not nil, a copy of its least node is stored and
    /// returned; otherwise it walks up while the node walked from is the
    /// right child of its parent, and returns the parent where it stops
    /// (nothing at the top or at a nil parent).
    pub fn tree_successor_simpler(arena: &mut BstArena, x_node: &BstNodeLink) -> (r: Option<BstNodeLink>)
        requires
            old(arena).wf(),
            *x_node < old(arena)@.len(),
        ensures
            final(arena).wf(),
            final(arena).ranks_kept(*old(arena)),
            if !old(arena).nil_link(old(arena)@[*x_node as int].right) {
                final(arena)@ == old(arena)@.push(
                    old(arena).min_node(old(arena)@[old(arena)@[*x_node as int].right->0 as int]),
                ) && r == Some(old(arena)@.len() as usize)
            } else {
                final(arena)@ == old(arena)@ && r == old(arena).up_walk(*x_node)
            },
            forall|t: usize, i: int|
                #![trigger old(arena).linked_search_tree(t), old(arena).inorder(Some(t))[i]]
                old(arena).linked_search_tree(t) && 0 <= i < old(arena).inorder(Some(t)).len()
                    && old(arena).inorder(Some(t))[i] == *x_node ==> BstArena::successor_found(
                    *old(arena),
                    *final(arena),
                    t,
                    i,
                    r,
                ),
    {
        let ghost a0 = *arena;
        proof {
            assert(arena.fits(arena.nodes@[*x_node as int], arena.rank@[*x_node as int]));
        }
        let right_node = arena.node(*x_node).right;
        if !BstNode::is_nil(arena, &right_node) {
            proof {
                arena.lemma_node_can_hold(right_node->0);
            }
            let l = arena.node(right_node.unwrap()).minimum(arena);
            proof {
                assert(arena.nodes.len() == arena@.len());
                lemma_simpler_law(a0, *arena, *x_node, Some(l));
            }
            return Some(l);
        }
        let mut x = *x_node;
        let mut y = BstNode::upgrade_weak_to_strong(arena.node(x).parent);
        let ghost a = *arena;
        loop
            invariant
                *arena == a,
                a == *old(arena),
                a.nil_link(a@[*x_node as int].right),
                *x_node < a@.len(),
                a.wf(),
                x < a@.len(),
                y == a@[x as int].parent,
                a.up_walk(x) == a.up_walk(*x_node),
            decreases a.up(x),
        {
            proof {
                assert(a.fits(a.nodes@[x as int], a.rank@[x as int]));
            }
            if BstNode::is_nil(arena, &y) {
                proof {
                    assert(arena.nodes.len() == arena@.len());
                    lemma_simpler_law(a, *arena, *x_node, None);
                }
                return None;
            }
            let e = y.unwrap();
            proof {
                assert(a.fits(a.nodes@[e as int], a.rank@[e as int]));
                assert(a.rank@[e as int] <= a.ceil@);
            }
            if !BstNode::is_link(arena.node(e).right, x) {
                proof {
                    assert(arena.nodes.len() == arena@.len());
                    lemma_simpler_law(a, *arena, *x_node, Some(e));
                }
                return Some(e);
            }
            x = e;
            y = BstNode::upgrade_weak_to_strong(arena.node(e).parent);
        }
    }
}

} // verus!
