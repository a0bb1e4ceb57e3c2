use treekit::structure::bst::{BstArena, BstNode, BstNodeLink};

fn inorder_keys(arena: &BstArena, n: Option<BstNodeLink>, out: &mut Vec<i32>) {
    if let Some(i) = n {
        let nd = arena.node(i);
        inorder_keys(arena, nd.left, out);
        out.push(nd.key.unwrap());
        inorder_keys(arena, nd.right, out);
    }
}

fn keys_of(arena: &BstArena, n: Option<BstNodeLink>) -> Vec<i32> {
    let mut v = Vec::new();
    inorder_keys(arena, n, &mut v);
    v
}

fn height(arena: &BstArena, n: Option<BstNodeLink>) -> usize {
    match n {
        None => 0,
        Some(i) => {
            let nd = arena.node(i);
            1 + std::cmp::max(height(arena, nd.left), height(arena, nd.right))
        }
    }
}

/// Builds the classic example tree by repeated insertion and returns (arena, root).
fn sample_tree() -> (BstArena, BstNodeLink) {
    let mut arena = BstArena::new();
    let root = BstNode::new_bst_nodelink(&mut arena, 15);
    for k in [6, 18, 3, 7, 17, 20, 2, 4, 13, 9] {
        let r = BstNode::tree_insert(&mut arena, &Some(root), &k);
        assert_eq!(r, root);
    }
    (arena, root)
}

fn find(arena: &BstArena, root: BstNodeLink, key: i32) -> BstNodeLink {
    let mut cur = root;
    loop {
        let nd = arena.node(cur);
        let k = nd.key.unwrap();
        if k == key {
            return cur;
        }
        cur = if key < k { nd.left.unwrap() } else { nd.right.unwrap() };
    }
}

#[test]
fn test_new_bst_nodelink() {
    let mut arena = BstArena::new();
    let a = BstNode::new_bst_nodelink(&mut arena, 42);
    let b = BstNode::new_bst_nodelink(&mut arena, 7);
    assert_eq!(a, 0);
    assert_eq!(b, 1);
    let nd = arena.node(a);
    assert_eq!(nd.key, Some(42));
    assert!(nd.parent.is_none() && nd.left.is_none() && nd.right.is_none());
    assert_eq!(arena.len(), 2);
}

#[test]
fn test_add_children_sets_parent() {
    let mut arena = BstArena::new();
    let root = BstNode::new_bst_nodelink(&mut arena, 10);
    let mut nd = arena.node(root);
    nd.add_left_child(&mut arena, &root, 5);
    nd.add_right_child(&mut arena, &root, 15);
    arena.set_node(root, nd);
    let r = arena.node(root);
    let l = arena.node(r.left.unwrap());
    let rr = arena.node(r.right.unwrap());
    assert_eq!(l.key, Some(5));
    assert_eq!(rr.key, Some(15));
    assert_eq!(l.parent, Some(root));
    assert_eq!(rr.parent, Some(root));
    assert_eq!(keys_of(&arena, Some(root)), vec![5, 10, 15]);
}

#[test]
fn test_get_bst_nodelink_copy_is_new_node() {
    let (mut arena, root) = sample_tree();
    let before = arena.len();
    let c = arena.node(root).get_bst_nodelink_copy(&mut arena);
    assert_eq!(c, before);
    let orig = arena.node(root);
    let copy = arena.node(c);
    assert_eq!(copy.key, orig.key);
    assert_eq!(copy.left, orig.left);
    assert_eq!(copy.right, orig.right);
    assert_eq!(copy.parent, orig.parent);
}

#[test]
fn test_tree_insert_keeps_order() {
    let (arena, root) = sample_tree();
    assert_eq!(keys_of(&arena, Some(root)), vec![2, 3, 4, 6, 7, 9, 13, 15, 17, 18, 20]);
}

#[test]
fn test_tree_insert_duplicate_goes_left() {
    let (mut arena, root) = sample_tree();
    let r = BstNode::tree_insert(&mut arena, &Some(root), &15);
    assert_eq!(r, root);
    assert_eq!(keys_of(&arena, Some(root)), vec![2, 3, 4, 6, 7, 9, 13, 15, 15, 17, 18, 20]);
    let n13 = find(&arena, root, 13);
    let dup = arena.node(n13).right.unwrap();
    assert_eq!(arena.node(dup).key, Some(15));
    assert_eq!(arena.node(dup).parent, Some(n13));
}

#[test]
fn test_tree_insert_into_nothing() {
    let mut arena = BstArena::new();
    let r = BstNode::tree_insert(&mut arena, &None, &5);
    assert_eq!(arena.node(r).key, Some(5));
    assert_eq!(keys_of(&arena, Some(r)), vec![5]);
}

#[test]
fn test_tree_insert_returns_root_from_inner_node() {
    let (mut arena, root) = sample_tree();
    let n6 = find(&arena, root, 6);
    let r = BstNode::tree_insert(&mut arena, &Some(n6), &5);
    assert_eq!(r, root);
    assert_eq!(keys_of(&arena, Some(root)), vec![2, 3, 4, 5, 6, 7, 9, 13, 15, 17, 18, 20]);
}

#[test]
fn test_tree_search_found_and_missing() {
    let (mut arena, root) = sample_tree();
    let before = arena.len();
    let found = arena.node(root).tree_search(&mut arena, &13).unwrap();
    assert_eq!(found, before);
    assert_eq!(arena.node(found).key, Some(13));
    let n13 = find(&arena, root, 13);
    assert_eq!(arena.node(found).parent, arena.node(n13).parent);
    let len = arena.len();
    assert!(arena.node(root).tree_search(&mut arena, &14).is_none());
    assert!(arena.node(root).tree_search(&mut arena, &1).is_none());
    assert!(arena.node(root).tree_search(&mut arena, &21).is_none());
    assert_eq!(arena.len(), len);
    let top = arena.node(root).tree_search(&mut arena, &15).unwrap();
    assert_eq!(arena.node(top).key, Some(15));
}

#[test]
fn test_minimum_and_maximum() {
    let (mut arena, root) = sample_tree();
    let mn = arena.node(root).minimum(&mut arena);
    let mx = arena.node(root).maximum(&mut arena);
    assert_eq!(arena.node(mn).key, Some(2));
    assert_eq!(arena.node(mx).key, Some(20));
    let n6 = find(&arena, root, 6);
    let mn6 = arena.node(n6).minimum(&mut arena);
    let mx6 = arena.node(n6).maximum(&mut arena);
    assert_eq!(arena.node(mn6).key, Some(2));
    assert_eq!(arena.node(mx6).key, Some(13));
    let leaf = find(&arena, root, 9);
    let m = arena.node(leaf).minimum(&mut arena);
    assert_eq!(arena.node(m).key, Some(9));
}

#[test]
fn test_get_root() {
    let (arena, root) = sample_tree();
    let n9 = find(&arena, root, 9);
    assert_eq!(BstNode::get_root(&arena, &n9), root);
    assert_eq!(BstNode::get_root(&arena, &root), root);
}

#[test]
fn test_tree_successor() {
    let (mut arena, root) = sample_tree();
    let keys = keys_of(&arena, Some(root));
    for w in keys.windows(2) {
        let x = find(&arena, root, w[0]);
        let s = BstNode::tree_successor(&mut arena, &x).unwrap();
        assert_eq!(arena.node(s).key, Some(w[1]));
    }
    let n20 = find(&arena, root, 20);
    assert!(BstNode::tree_successor(&mut arena, &n20).is_none());
}

#[test]
fn test_tree_successor_walks_up_to_real_node() {
    let (mut arena, root) = sample_tree();
    let n13 = find(&arena, root, 13);
    let len = arena.len();
    let s = BstNode::tree_successor(&mut arena, &n13).unwrap();
    assert_eq!(s, root);
    assert_eq!(arena.len(), len);
}

#[test]
fn test_tree_predecessor() {
    let (arena, root) = sample_tree();
    let p = BstNode::tree_predecessor(&arena, &Some(root)).unwrap();
    assert_eq!(arena.node(p).key, Some(13));
    let n6 = find(&arena, root, 6);
    let p6 = BstNode::tree_predecessor(&arena, &Some(n6)).unwrap();
    assert_eq!(arena.node(p6).key, Some(4));
    let n7 = find(&arena, root, 7);
    assert!(BstNode::tree_predecessor(&arena, &Some(n7)).is_none());
    assert!(BstNode::tree_predecessor(&arena, &None).is_none());
}

#[test]
fn test_median() {
    let (arena, root) = sample_tree();
    let m = arena.node(root).median(&arena, &Some(root)).unwrap();
    assert_eq!(arena.node(m).key, Some(9));
    let n6 = find(&arena, root, 6);
    let m6 = arena.node(root).median(&arena, &Some(n6)).unwrap();
    assert_eq!(arena.node(m6).key, Some(6));
    assert!(arena.node(root).median(&arena, &None).is_none());
}

#[test]
fn test_tree_rebalance() {
    let mut arena = BstArena::new();
    let root = BstNode::new_bst_nodelink(&mut arena, 1);
    for k in 2..16 {
        BstNode::tree_insert(&mut arena, &Some(root), &k);
    }
    assert_eq!(height(&arena, Some(root)), 15);
    let len = arena.len();
    let nr = BstNode::tree_rebalance(&mut arena, &Some(root)).unwrap();
    assert!(nr >= len);
    assert_eq!(keys_of(&arena, Some(nr)), (1..16).collect::<Vec<i32>>());
    assert_eq!(height(&arena, Some(nr)), 4);
    assert_eq!(arena.node(nr).key, Some(8));
    assert!(arena.node(nr).parent.is_none());
    let l = arena.node(nr).left.unwrap();
    assert_eq!(arena.node(l).parent, Some(nr));
    // the old tree is left as it was
    assert_eq!(keys_of(&arena, Some(root)), (1..16).collect::<Vec<i32>>());
    assert!(BstNode::tree_rebalance(&mut arena, &None).is_none());
}

#[test]
fn test_add_node() {
    let (mut arena, root) = sample_tree();
    let n7 = find(&arena, root, 7);
    let n9 = find(&arena, root, 9);
    let me = arena.node(root);
    // 8 is below 9 and 9 has no left child: goes left
    assert!(me.add_node(&mut arena, &Some(root), &Some(n9), 8));
    assert_eq!(arena.node(arena.node(n9).left.unwrap()).key, Some(8));
    // 7 has a right child (13), and 100 is not below 7, so it can hang nowhere
    assert!(!me.add_node(&mut arena, &Some(root), &Some(n7), 100));
    // 1 is below 7 and the left slot is free
    assert!(me.add_node(&mut arena, &Some(root), &Some(n7), 1));
    assert_eq!(arena.node(arena.node(n7).left.unwrap()).key, Some(1));
    // a target outside the searched tree is not found
    let n6 = find(&arena, root, 6);
    let n20 = find(&arena, root, 20);
    let len = arena.len();
    assert!(!me.add_node(&mut arena, &Some(n6), &Some(n20), 30));
    assert_eq!(arena.len(), len);
    assert!(!me.add_node(&mut arena, &None, &Some(n20), 30));
    assert!(!me.add_node(&mut arena, &Some(root), &None, 30));
}

#[test]
fn test_tree_delete_one_child() {
    let (mut arena, root) = sample_tree();
    let n7 = find(&arena, root, 7);
    let n13 = find(&arena, root, 13);
    let r = BstNode::tree_delete(&mut arena, &n7);
    assert_eq!(r, n13);
    assert_eq!(keys_of(&arena, Some(root)), vec![2, 3, 4, 6, 9, 13, 15, 17, 18, 20]);
    assert_eq!(arena.node(n13).parent, Some(find(&arena, root, 6)));
}

#[test]
fn test_tree_delete_two_children() {
    let mut arena = BstArena::new();
    let root = BstNode::new_bst_nodelink(&mut arena, 15);
    for k in [6, 18, 3, 10, 8, 12] {
        BstNode::tree_insert(&mut arena, &Some(root), &k);
    }
    let n6 = find(&arena, root, 6);
    let n10 = find(&arena, root, 10);
    let len = arena.len();
    let r = BstNode::tree_delete(&mut arena, &n6);
    assert_eq!(r, len);
    assert_eq!(arena.node(r).key, Some(8));
    assert_eq!(keys_of(&arena, Some(root)), vec![3, 8, 10, 12, 15, 18]);
    assert_eq!(arena.node(root).left, Some(r));
    assert_eq!(arena.node(r).parent, Some(root));
    assert_eq!(arena.node(n10).left, None);
    assert_eq!(arena.node(n10).parent, Some(r));
}

#[test]
fn test_tree_delete_successor_is_right_child() {
    // 10 / 5(3, 7(-, 8)): the least node of 5's right subtree is 7 itself
    let mut arena = BstArena::new();
    let root = BstNode::new_bst_nodelink(&mut arena, 10);
    for k in [5, 3, 7, 8] {
        BstNode::tree_insert(&mut arena, &Some(root), &k);
    }
    let n5 = find(&arena, root, 5);
    let n8 = find(&arena, root, 8);
    let r = BstNode::tree_delete(&mut arena, &n5);
    assert_eq!(arena.node(r).key, Some(7));
    assert_eq!(arena.node(root).left, Some(r));
    assert_eq!(arena.node(r).parent, Some(root));
    assert_eq!(arena.node(arena.node(r).left.unwrap()).key, Some(3));
    assert_eq!(arena.node(r).right, Some(n8));
    assert_eq!(arena.node(n8).parent, Some(r));
    assert_eq!(keys_of(&arena, Some(root)), vec![3, 7, 8, 10]);
}

#[test]
fn test_tree_delete_successor_is_right_leaf() {
    let (mut arena, root) = sample_tree();
    let n18 = find(&arena, root, 18);
    let r = BstNode::tree_delete(&mut arena, &n18);
    assert_eq!(arena.node(r).key, Some(20));
    assert_eq!(arena.node(r).right, None);
    assert_eq!(keys_of(&arena, Some(root)), vec![2, 3, 4, 6, 7, 9, 13, 15, 17, 20]);
}

#[test]
fn test_tree_delete_right_child_of_node_without_left() {
    let mut arena = BstArena::new();
    let root = BstNode::new_bst_nodelink(&mut arena, 5);
    for k in [8, 9] {
        BstNode::tree_insert(&mut arena, &Some(root), &k);
    }
    let n8 = find(&arena, root, 8);
    let n9 = find(&arena, root, 9);
    let r = BstNode::tree_delete(&mut arena, &n8);
    assert_eq!(r, n9);
    assert_eq!(arena.node(root).right, Some(n9));
    assert_eq!(arena.node(n9).parent, Some(root));
    assert_eq!(arena.node(root).left, None);
    assert_eq!(keys_of(&arena, Some(root)), vec![5, 9]);
}

#[test]
fn test_tree_delete_root() {
    // a root with one child: the child becomes a root
    let mut arena = BstArena::new();
    let root = BstNode::new_bst_nodelink(&mut arena, 5);
    BstNode::tree_insert(&mut arena, &Some(root), &3);
    let n3 = find(&arena, root, 3);
    let r = BstNode::tree_delete(&mut arena, &root);
    assert_eq!(r, n3);
    assert_eq!(arena.node(n3).parent, None);
    assert_eq!(keys_of(&arena, Some(r)), vec![3]);
    // a root with both children: the copy of its successor becomes the root
    let (mut arena, root) = sample_tree();
    let r = BstNode::tree_delete(&mut arena, &root);
    assert_eq!(arena.node(r).key, Some(17));
    assert_eq!(arena.node(r).parent, None);
    assert_eq!(keys_of(&arena, Some(r)), vec![2, 3, 4, 6, 7, 9, 13, 17, 18, 20]);
    assert_eq!(BstNode::get_root(&arena, &find(&arena, r, 2)), r);
}

#[test]
fn test_tree_successor_simpler() {
    let (mut arena, root) = sample_tree();
    let keys = keys_of(&arena, Some(root));
    for w in keys.windows(2) {
        let x = find(&arena, root, w[0]);
        let s = BstNode::tree_successor_simpler(&mut arena, &x).unwrap();
        assert_eq!(arena.node(s).key, Some(w[1]));
    }
    let n20 = find(&arena, root, 20);
    assert!(BstNode::tree_successor_simpler(&mut arena, &n20).is_none());
    // the successor may be the root
    let mut arena = BstArena::new();
    let r = BstNode::new_bst_nodelink(&mut arena, 5);
    for k in [3, 8] {
        BstNode::tree_insert(&mut arena, &Some(r), &k);
    }
    let n3 = find(&arena, r, 3);
    assert_eq!(BstNode::tree_successor_simpler(&mut arena, &n3), Some(r));
}

#[test]
fn test_insert_then_search_finds_key() {
    let (mut arena, root) = sample_tree();
    for k in [1, 5, 8, 14, 16, 19, 21] {
        assert!(arena.node(root).tree_search(&mut arena, &k).is_none());
        BstNode::tree_insert(&mut arena, &Some(root), &k);
        let f = arena.node(root).tree_search(&mut arena, &k).unwrap();
        assert_eq!(arena.node(f).key, Some(k));
    }
}

#[test]
fn test_delete_then_search_misses_key() {
    let mut arena = BstArena::new();
    let root = BstNode::new_bst_nodelink(&mut arena, 15);
    for k in [6, 18, 3, 10, 8, 12, 16, 20] {
        BstNode::tree_insert(&mut arena, &Some(root), &k);
    }
    // 6 has both children and its successor 8 is not its right child
    let n6 = find(&arena, root, 6);
    BstNode::tree_delete(&mut arena, &n6);
    assert!(arena.node(root).tree_search(&mut arena, &6).is_none());
    assert_eq!(keys_of(&arena, Some(root)), vec![3, 8, 10, 12, 15, 16, 18, 20]);
    // 10 now lacks its left child
    let n10 = find(&arena, root, 10);
    BstNode::tree_delete(&mut arena, &n10);
    assert!(arena.node(root).tree_search(&mut arena, &10).is_none());
    assert_eq!(keys_of(&arena, Some(root)), vec![3, 8, 12, 15, 16, 18, 20]);
}

#[test]
fn test_insert_and_delete_keep_links() {
    // after inserting new keys and deleting inner nodes, every child still
    // names its parent and the keys stay in increasing order
    fn check_links(arena: &BstArena, n: Option<BstNodeLink>) {
        if let Some(i) = n {
            let nd = arena.node(i);
            for c in [nd.left, nd.right].into_iter().flatten() {
                assert_eq!(arena.node(c).parent, Some(i));
            }
            check_links(arena, nd.left);
            check_links(arena, nd.right);
        }
    }
    let mut arena = BstArena::new();
    let root = BstNode::new_bst_nodelink(&mut arena, 50);
    for k in [30, 70, 20, 40, 60, 80, 35, 45, 65] {
        BstNode::tree_insert(&mut arena, &Some(root), &k);
        check_links(&arena, Some(root));
    }
    assert!(arena.node(root).parent.is_none());
    for k in [30, 60, 40] {
        let n = find(&arena, root, k);
        BstNode::tree_delete(&mut arena, &n);
        check_links(&arena, Some(root));
        assert!(arena.node(root).tree_search(&mut arena, &k).is_none());
    }
    assert_eq!(keys_of(&arena, Some(root)), vec![20, 35, 45, 50, 65, 70, 80]);
}
