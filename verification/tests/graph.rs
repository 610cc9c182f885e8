use yuiui::graph::Graph;

#[test]
fn test_alloc_append_remove() {
    let mut g = Graph::default();
    let a = g.alloc_node();
    let b = g.alloc_node();
    let c = g.alloc_node();
    assert_eq!((a, b, c), (0, 1, 2));
    g.append_child(a, b);
    g.append_child(a, c);
    assert_eq!(g.children[a], vec![b, c]);
    assert_eq!(g.parent[b], a);
    g.remove_child(a, b);
    assert_eq!(g.children[a], vec![c]);
    assert_eq!(g.parent[b], b);
    g.add_before(a, c, b);
    assert_eq!(g.children[a], vec![b, c]);
    assert_eq!(g.parent[b], a);
}

#[test]
fn test_free_subtree_then_reuse_ids() {
    let mut g = Graph::default();
    let root = g.alloc_node();
    let x = g.alloc_node();
    let y = g.alloc_node();
    let z = g.alloc_node();
    g.append_child(root, x);
    g.append_child(x, y);
    g.append_child(x, z);
    g.remove_child(root, x);
    g.free_subtree(x);
    assert!(g.children[x].is_empty());
    assert_eq!(g.parent[y], y);
    assert_eq!(g.parent[z], z);
    // Freed breadth-first: x, then y, then z; the last freed id comes back first.
    assert_eq!(g.alloc_node(), z);
    assert_eq!(g.alloc_node(), y);
    assert_eq!(g.alloc_node(), x);
    assert_eq!(g.alloc_node(), 4);
}

#[test]
fn test_add_before_first_occurrence() {
    let mut g = Graph::default();
    for _ in 0..4 {
        g.alloc_node();
    }
    g.append_child(0, 1);
    g.append_child(0, 2);
    g.add_before(0, 2, 3);
    assert_eq!(g.children[0], vec![1, 3, 2]);
    g.add_before(0, 1, 2);
    assert_eq!(g.children[0], vec![2, 1, 3, 2]);
    g.remove_child(0, 2);
    assert_eq!(g.children[0], vec![1, 3, 2]);
}
