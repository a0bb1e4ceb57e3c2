# treekit

Two small tree structures, written in Verus and proved against their contracts.

- `structure::bst`: a binary search tree whose nodes carry a key, a parent
  link and two child links. Nodes live in a `BstArena`; a link is an index
  into it. Operations: building nodes, insertion, search, minimum and
  maximum, successor and predecessor, root lookup, median, deletion,
  attaching a node under a given one, and rebuilding a size-balanced copy.
  A ghost rank on every node (children rank lower, parents higher) makes
  every walk down or up the tree terminate.
- `structure::bst_laws`: the proofs behind the tree contracts and the laws
  that relate several operations (a key inserted is found by a search;
  insertion keeps a sorted tree whose children name their parents and
  returns its top; the successor and predecessor are the neighbours in
  order).
- `structure::bst_delete`: the laws of deletion: on a search tree whose
  children name their parents, deleting any node that has a child leaves
  the old keys
  without that node's key, in a tree of the same kind, and a search no
  longer finds the key; the `is_nil`-based successor finds the same node
  as `tree_successor`.
- `structure::btree`: a digit tree storing non-negative numbers as paths of
  decimal digits, with insertion and lookup; on a tree grown from
  `BTreeNode::new` by `insert` (which keeps every node reachable by one digit
  sequence only), after an insertion exactly the numbers found before and
  the inserted one are found.

`tests/` runs the operations on concrete trees.
