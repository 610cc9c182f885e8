# yuiui

The data structures and algorithms behind a small retained-mode UI toolkit, written in
Verus and proved against their contracts.

## Layout

- `src/slot_vec.rs`: a vector whose values keep the slot index they were inserted under;
  freed slots are reused, trailing free slots are dropped.
- `src/tree.rs`, `src/tree_order.rs`, `src/tree_format.rs`, `src/tree_walk.rs`: an ordered
  forest stored in a slot vector, with insertion, detaching of subtrees, moving of nodes,
  traversals (ancestors, siblings, pre- and post-order, walks) and an outline for printing.
- `src/reconciler.rs`: the keyed diff that turns a list of old children into a list of new
  elements, one instruction at a time.
- `src/updater.rs`: carrying out one reconciler instruction on the children of a node of
  the tree.
- `src/render_loop.rs`: the render loop's decisions: which piece of work comes next, and
  what the loop reports when it stops.
- `src/graph.rs`: a forest of ids kept as children lists and parent links with a free list.
- `src/id.rs`, `src/id_tree.rs`: node ids, the id stack used while rendering, and the trie
  of id paths with breadth-first listing.
- `src/storages.rs`: the storages of optional children and of lists of children, with the
  flags that decide, at each commit, whether nodes are updated, swapped in, mounted or
  unmounted.
- `src/state.rs`, `src/context.rs`: atoms that remember their subscribers, and the render
  context that subscribes the node being rendered.
- `src/widget.rs`, `src/event.rs`, `src/lifecycle.rs`, `src/view_node.rs`, `src/element.rs`,
  `src/hlist.rs`, `src/component_stack.rs`: the small types of the
  toolkit.
- `tests/`: tests run against the compiled library.
- `app/`: a demonstration program that renders keyed children, reconciles them after a
  reordering and prints the tree; it also holds the floating-point geometry, which stays
  outside the verified library.
