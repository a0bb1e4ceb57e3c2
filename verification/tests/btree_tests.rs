use treekit::structure::btree::{BTreeArena, BTreeNode};

#[test]
fn test_insert_then_lookup() {
    let mut arena = BTreeArena::new();
    let root = BTreeNode::new(&mut arena, 0);
    BTreeNode::insert(&mut arena, &root, 123);
    BTreeNode::insert(&mut arena, &root, 45);
    BTreeNode::insert(&mut arena, &root, 0);
    assert!(BTreeNode::lookup(&arena, &root, vec![1, 2, 3]));
    assert!(BTreeNode::lookup(&arena, &root, vec![4, 5]));
    assert!(BTreeNode::lookup(&arena, &root, vec![0]));
    assert!(!BTreeNode::lookup(&arena, &root, vec![1, 2]));
    assert!(!BTreeNode::lookup(&arena, &root, vec![1, 2, 3, 4]));
    assert!(!BTreeNode::lookup(&arena, &root, vec![9]));
    assert!(!BTreeNode::lookup(&arena, &root, vec![]));
}

#[test]
fn test_shared_prefix_reuses_nodes() {
    let mut arena = BTreeArena::new();
    let root = BTreeNode::new(&mut arena, 0);
    BTreeNode::insert(&mut arena, &root, 12);
    assert_eq!(arena.nodes.len(), 3);
    BTreeNode::insert(&mut arena, &root, 1);
    assert_eq!(arena.nodes.len(), 3);
    BTreeNode::insert(&mut arena, &root, 13);
    assert_eq!(arena.nodes.len(), 4);
    assert!(BTreeNode::lookup(&arena, &root, vec![1]));
    assert!(BTreeNode::lookup(&arena, &root, vec![1, 2]));
    assert!(BTreeNode::lookup(&arena, &root, vec![1, 3]));
}

#[test]
fn test_lookup_without_root() {
    let arena = BTreeArena::new();
    assert!(!BTreeNode::lookup(&arena, &None, vec![1]));
}

#[test]
fn test_new_node_fields() {
    let mut arena = BTreeArena::new();
    let n = BTreeNode::new(&mut arena, 7).unwrap();
    assert_eq!(arena.nodes[n].digit, 7);
    assert!(!arena.nodes[n].is_terminal);
    assert!(arena.nodes[n].children.is_empty());
}

#[test]
fn test_lookup_only_inserted_numbers() {
    let mut arena = BTreeArena::new();
    let root = BTreeNode::new(&mut arena, 0);
    for n in [507, 50, 5071, 7] {
        BTreeNode::insert(&mut arena, &root, n);
    }
    for ds in [vec![5, 0, 7], vec![5, 0], vec![5, 0, 7, 1], vec![7]] {
        assert!(BTreeNode::lookup(&arena, &root, ds));
    }
    for ds in [vec![5], vec![5, 0, 7, 1, 0], vec![0], vec![7, 0], vec![5, 7], vec![]] {
        assert!(!BTreeNode::lookup(&arena, &root, ds));
    }
}
