use yuiui::tree::{Link, Node, Tree};

#[test]
fn test_is_attached() {
    let mut tree = Tree::new();
    assert!(!tree.is_attached(0));

    let root = tree.attach("root");
    assert!(tree.is_attached(root));
}

#[test]
fn test_is_root() {
    let mut tree = Tree::new();

    let root = tree.attach("root");
    let foo = tree.append_child(root, "foo");
    let bar = tree.append_child(root, "bar");

    assert_eq!(tree.index(root).is_root(), true);
    assert_eq!(tree.index(foo).is_root(), false);
    assert_eq!(tree.index(bar).is_root(), false);
}

#[test]
fn test_append_child() {
    let mut tree = Tree::new();
    let root = tree.attach("root");

    assert_eq!(*tree.index(root), Link {
        current: Node {
            data: "root",
            first_child: None,
            last_child: None,
        },
        prev_sibling: None,
        next_sibling: None,
        parent: None,
    });

    let foo = tree.append_child(root, "foo");

    assert_eq!(*tree.index(root), Link {
        current: Node {
            data: "root",
            first_child: Some(foo),
            last_child: Some(foo),
        },
        prev_sibling: None,
        next_sibling: None,
        parent: None,
    });
    assert_eq!(*tree.index(foo), Link {
        current: Node {
            data: "foo",
            first_child: None,
            last_child: None,
        },
        prev_sibling: None,
        next_sibling: None,
        parent: Some(root),
    });

    let bar = tree.append_child(root, "bar");

    assert_eq!(*tree.index(root), Link {
        current: Node {
            data: "root",
            first_child: Some(foo),
            last_child: Some(bar),
        },
        prev_sibling: None,
        next_sibling: None,
        parent: None,
    });
    assert_eq!(*tree.index(foo), Link {
        current: Node {
            data: "foo",
            first_child: None,
            last_child: None,
        },
        prev_sibling: None,
        next_sibling: Some(bar),
        parent: Some(root),
    });
    assert_eq!(*tree.index(bar), Link {
        current: Node {
            data: "bar",
            first_child: None,
            last_child: None,
        },
        prev_sibling: Some(foo),
        next_sibling: None,
        parent: Some(root),
    });
}

#[test]
fn test_prepend_child() {
    let mut tree = Tree::new();
    let root = tree.attach("root");

    assert_eq!(*tree.index(root), Link {
        current: Node {
            data: "root",
            first_child: None,
            last_child: None,
        },
        prev_sibling: None,
        next_sibling: None,
        parent: None,
    });

    let foo = tree.prepend_child(root, "foo");

    assert_eq!(*tree.index(root), Link {
        current: Node {
            data: "root",
            first_child: Some(foo),
            last_child: Some(foo),
        },
        prev_sibling: None,
        next_sibling: None,
        parent: None,
    });
    assert_eq!(*tree.index(foo), Link {
        current: Node {
            data: "foo",
            first_child: None,
            last_child: None,
        },
        prev_sibling: None,
        next_sibling: None,
        parent: Some(root),
    });

    let bar = tree.prepend_child(root, "bar");

    assert_eq!(*tree.index(root), Link {
        current: Node {
            data: "root",
            first_child: Some(bar),
            last_child: Some(foo),
        },
        prev_sibling: None,
        next_sibling: None,
        parent: None,
    });
    assert_eq!(*tree.index(foo), Link {
        current: Node {
            data: "foo",
            first_child: None,
            last_child: None,
        },
        prev_sibling: Some(bar),
        next_sibling: None,
        parent: Some(root),
    });
    assert_eq!(*tree.index(bar), Link {
        current: Node {
            data: "bar",
            first_child: None,
            last_child: None,
        },
        prev_sibling: None,
        next_sibling: Some(foo),
        parent: Some(root),
    });
}

#[test]
fn test_insert_before() {
    let mut tree = Tree::new();
    let root = tree.attach("root");
    let foo = tree.append_child(root, "foo");
    let bar = tree.append_child(root, "bar");
    let baz = tree.insert_before(foo, "baz");
    let qux = tree.insert_before(foo, "qux");

    assert_eq!(*tree.index(root), Link {
        current: Node {
            data: "root",
            first_child: Some(baz),
            last_child: Some(bar),
        },
        prev_sibling: None,
        next_sibling: None,
        parent: None,
    });
    assert_eq!(*tree.index(foo), Link {
        current: Node {
            data: "foo",
            first_child: None,
            last_child: None,
        },
        prev_sibling: Some(qux),
        next_sibling: Some(bar),
        parent: Some(root),
    });
    assert_eq!(*tree.index(bar), Link {
        current: Node {
            data: "bar",
            first_child: None,
            last_child: None,
        },
        prev_sibling: Some(foo),
        next_sibling: None,
        parent: Some(root),
    });
    assert_eq!(*tree.index(baz), Link {
        current: Node {
            data: "baz",
            first_child: None,
            last_child: None,
        },
        prev_sibling: None,
        next_sibling: Some(qux),
        parent: Some(root),
    });
    assert_eq!(*tree.index(qux), Link {
        current: Node {
            data: "qux",
            first_child: None,
            last_child: None,
        },
        prev_sibling: Some(baz),
        next_sibling: Some(foo),
        parent: Some(root),
    });
}

#[test]
fn test_insert_after() {
    let mut tree = Tree::new();
    let root = tree.attach("root");
    let foo = tree.append_child(root, "foo");
    let bar = tree.append_child(root, "bar");
    let baz = tree.insert_after(bar, "baz");
    let qux = tree.insert_after(bar, "qux");

    assert_eq!(*tree.index(root), Link {
        current: Node {
            data: "root",
            first_child: Some(foo),
            last_child: Some(baz),
        },
        prev_sibling: None,
        next_sibling: None,
        parent: None,
    });
    assert_eq!(*tree.index(foo), Link {
        current: Node {
            data: "foo",
            first_child: None,
            last_child: None,
        },
        prev_sibling: None,
        next_sibling: Some(bar),
        parent: Some(root),
    });
    assert_eq!(*tree.index(bar), Link {
        current: Node {
            data: "bar",
            first_child: None,
            last_child: None,
        },
        prev_sibling: Some(foo),
        next_sibling: Some(qux),
        parent: Some(root),
    });
    assert_eq!(*tree.index(baz), Link {
        current: Node {
            data: "baz",
            first_child: None,
            last_child: None,
        },
        prev_sibling: Some(qux),
        next_sibling: None,
        parent: Some(root),
    });
    assert_eq!(*tree.index(qux), Link {
        current: Node {
            data: "qux",
            first_child: None,
            last_child: None,
        },
        prev_sibling: Some(bar),
        next_sibling: Some(baz),
        parent: Some(root),
    });
}

#[test]
fn test_detach() {
    let mut tree = Tree::new();
    let root = tree.attach("root");
    let foo = tree.append_child(root, "foo");
    let bar = tree.append_child(foo, "bar");
    let baz = tree.append_child(bar, "baz");
    let qux = tree.append_child(foo, "qux");
    let quux = tree.append_child(root, "quux");

    assert_eq!(tree.detach_subtree(foo), [
        (baz, Link {
            current: Node {
                data: "baz",
                first_child: None,
                last_child: None,
            },
            prev_sibling: None,
            next_sibling: None,
            parent: Some(bar),
        }),
        (bar, Link {
            current: Node {
                data: "bar",
                first_child: Some(baz),
                last_child: Some(baz),
            },
            prev_sibling: None,
            next_sibling: Some(qux),
            parent: Some(foo),
        }),
        (qux, Link {
            current: Node {
                data: "qux",
                first_child: None,
                last_child: None,
            },
            prev_sibling: Some(bar),
            next_sibling: None,
            parent: Some(foo),
        }),
        (foo, Link {
            current: Node {
                data: "foo",
                first_child: Some(bar),
                last_child: Some(qux),
            },
            prev_sibling: None,
            next_sibling: Some(quux),
            parent: Some(root),
        }),
    ]);
    assert_eq!(*tree.index(root), Link {
        current: Node {
            data: "root",
            first_child: Some(quux),
            last_child: Some(quux),
        },
        prev_sibling: None,
        next_sibling: None,
        parent: None,
    });
    assert_eq!(*tree.index(quux), Link {
        current: Node {
            data: "quux",
            first_child: None,
            last_child: None,
        },
        prev_sibling: None,
        next_sibling: None,
        parent: Some(root),
    });
    assert!(!tree.is_attached(foo));
    assert!(!tree.is_attached(bar));
    assert!(!tree.is_attached(baz));
    assert!(!tree.is_attached(qux));

    assert_eq!(tree.detach_subtree(root), [
        (quux, Link {
            current: Node {
                data: "quux",
                first_child: None,
                last_child: None,
            },
            prev_sibling: None,
            next_sibling: None,
            parent: Some(root),
        }),
        (root, Link {
            current: Node {
                data: "root",
                first_child: Some(quux),
                last_child: Some(quux),
            },
            prev_sibling: None,
            next_sibling: None,
            parent: None,
        }),
    ]);
    assert!(!tree.is_attached(root));
    assert!(!tree.is_attached(foo));
    assert!(!tree.is_attached(bar));
    assert!(!tree.is_attached(baz));
    assert!(!tree.is_attached(qux));
    assert!(!tree.is_attached(quux));
}

#[test]
fn test_ancestors() {
    let mut tree = Tree::new();
    let root = tree.attach("root");
    let foo = tree.append_child(root, "foo");
    let bar = tree.append_child(root, "bar");
    let baz = tree.append_child(foo, "baz");
    let qux = tree.append_child(baz, "qux");
    let quux = tree.append_child(qux, "quux");
    let corge = tree.append_child(baz, "corge");

    assert_eq!(tree.ancestors(root), []);
    assert_eq!(tree.ancestors(foo), [(root, tree.index(root))]);
    assert_eq!(tree.ancestors(bar), [(root, tree.index(root))]);
    assert_eq!(tree.ancestors(baz), [(foo, tree.index(foo)), (root, tree.index(root))]);
    assert_eq!(tree.ancestors(qux), [(baz, tree.index(baz)), (foo, tree.index(foo)), (root, tree.index(root))]);
    assert_eq!(tree.ancestors(quux), [(qux, tree.index(qux)), (baz, tree.index(baz)), (foo, tree.index(foo)), (root, tree.index(root))]);
    assert_eq!(tree.ancestors(corge), [(baz, tree.index(baz)), (foo, tree.index(foo)), (root, tree.index(root))]);

    for node_id in &[root, foo, bar, baz, qux, quux, corge] {
        assert_eq!(
            tree.ancestors(*node_id).into_iter().map(|(index, link)| (index, format!("{:?}", link))).collect::<Vec<_>>(),
            tree.ancestors_mut(*node_id).into_iter().map(|(index, link)| (index, format!("{:?}", link))).collect::<Vec<_>>()
        );
    }
}

#[test]
fn test_children() {
    let mut tree = Tree::new();
    let root = tree.attach("root");
    let foo = tree.append_child(root, "foo");
    let bar = tree.append_child(root, "bar");
    let baz = tree.append_child(foo, "baz");
    let qux = tree.append_child(baz, "qux");
    let quux = tree.append_child(qux, "quux");
    let corge = tree.append_child(baz, "corge");

    assert_eq!(tree.children(root), [(foo, tree.index(foo)), (bar, tree.index(bar))]);
    assert_eq!(tree.children(foo), [(baz, tree.index(baz))]);
    assert_eq!(tree.children(bar), []);
    assert_eq!(tree.children(baz), [(qux, tree.index(qux)), (corge, tree.index(corge))]);
    assert_eq!(tree.children(qux), [(quux, tree.index(quux))]);
    assert_eq!(tree.children(quux), []);
    assert_eq!(tree.children(corge), []);

    for node_id in &[root, foo, bar, baz, qux, quux, corge] {
        assert_eq!(
            tree.children(*node_id).into_iter().map(|(index, link)| (index, format!("{:?}", link))).collect::<Vec<_>>(),
            tree.children_mut(*node_id).into_iter().map(|(index, link)| (index, format!("{:?}", link))).collect::<Vec<_>>()
        );
    }
}

#[test]
fn test_siblings() {
    let mut tree = Tree::new();
    let root = tree.attach("root");
    let foo = tree.append_child(root, "foo");
    let bar = tree.append_child(root, "bar");
    let baz = tree.append_child(root, "baz");

    assert_eq!(tree.prev_siblings(root), []);
    assert_eq!(tree.prev_siblings(foo), []);
    assert_eq!(tree.prev_siblings(bar), [(foo, tree.index(foo))]);
    assert_eq!(tree.prev_siblings(baz), [(bar, tree.index(bar)), (foo, tree.index(foo))]);

    assert_eq!(tree.next_siblings(root), []);
    assert_eq!(tree.next_siblings(foo), [(bar, tree.index(bar)), (baz, tree.index(baz))]);
    assert_eq!(tree.next_siblings(bar), [(baz, tree.index(baz))]);
    assert_eq!(tree.next_siblings(baz), []);

    for node_id in &[root, foo, bar, baz] {
        assert_eq!(
            tree.prev_siblings(*node_id).into_iter().map(|(index, link)| (index, format!("{:?}", link))).collect::<Vec<_>>(),
            tree.prev_siblings_mut(*node_id).into_iter().map(|(index, link)| (index, format!("{:?}", link))).collect::<Vec<_>>()
        );
        assert_eq!(
            tree.next_siblings(*node_id).into_iter().map(|(index, link)| (index, format!("{:?}", link))).collect::<Vec<_>>(),
            tree.next_siblings_mut(*node_id).into_iter().map(|(index, link)| (index, format!("{:?}", link))).collect::<Vec<_>>()
        );
    }
}

#[test]
fn test_pre_ordered_descendants() {
    let mut tree = Tree::new();
    let root = tree.attach("root");
    let foo = tree.append_child(root, "foo");
    let bar = tree.append_child(foo, "bar");
    let baz = tree.append_child(bar, "baz");
    let qux = tree.append_child(foo, "qux");
    let quux = tree.append_child(root, "qux");

    assert_eq!(tree.pre_ordered_descendants(root), &[(foo, tree.index(foo)), (bar, tree.index(bar)), (baz, tree.index(baz)), (qux, tree.index(qux)), (quux, tree.index(quux))]);
    assert_eq!(tree.pre_ordered_descendants(foo), &[(bar, tree.index(bar)), (baz, tree.index(baz)), (qux, tree.index(qux))]);
    assert_eq!(tree.pre_ordered_descendants(bar), &[(baz, tree.index(baz))]);
    assert_eq!(tree.pre_ordered_descendants(baz), &[]);
    assert_eq!(tree.pre_ordered_descendants(qux), &[]);
    assert_eq!(tree.pre_ordered_descendants(quux), &[]);

    for node_id in &[root, foo, bar, baz, qux, quux] {
        assert_eq!(
            tree.pre_ordered_descendants(*node_id).into_iter().map(|(index, link)| (index, format!("{:?}", link))).collect::<Vec<_>>(),
            tree.pre_ordered_descendants_mut(*node_id).into_iter().map(|(index, link)| (index, format!("{:?}", link))).collect::<Vec<_>>()
        );
    }
}

#[test]
fn test_post_ordered_descendants() {
    let mut tree = Tree::new();
    let root = tree.attach("root");
    let foo = tree.append_child(root, "foo");
    let bar = tree.append_child(foo, "bar");
    let baz = tree.append_child(bar, "baz");
    let qux = tree.append_child(foo, "qux");
    let quux = tree.append_child(root, "qux");

    assert_eq!(tree.post_ordered_descendants(root), &[(baz, tree.index(baz)), (bar, tree.index(bar)), (qux, tree.index(qux)), (foo, tree.index(foo)), (quux, tree.index(quux))]);
    assert_eq!(tree.post_ordered_descendants(foo), &[(baz, tree.index(baz)), (bar, tree.index(bar)), (qux, tree.index(qux))]);
    assert_eq!(tree.post_ordered_descendants(bar), &[(baz, tree.index(baz))]);
    assert_eq!(tree.post_ordered_descendants(baz), &[]);
    assert_eq!(tree.post_ordered_descendants(qux), &[]);
    assert_eq!(tree.post_ordered_descendants(quux), &[]);

    for node_id in &[root, foo, bar, baz, qux, quux] {
        assert_eq!(
            tree.post_ordered_descendants(*node_id).into_iter().map(|(index, link)| (index, format!("{:?}", link))).collect::<Vec<_>>(),
            tree.post_ordered_descendants_mut(*node_id).into_iter().map(|(index, link)| (index, format!("{:?}", link))).collect::<Vec<_>>()
        );
    }
}

#[test]
fn test_walk() {
    let mut tree = Tree::new();
    let root = tree.attach("root");
    let foo = tree.append_child(root, "foo");
    let bar = tree.append_child(foo, "bar");
    let baz = tree.append_child(bar, "baz");
    let qux = tree.append_child(foo, "qux");
    let quux = tree.append_child(root, "quux");

    assert_eq!(tree.walk(root), &[(root, tree.index(root)), (foo, tree.index(foo)), (bar, tree.index(bar)), (baz, tree.index(baz)), (qux, tree.index(qux)), (quux, tree.index(quux))]);
    assert_eq!(tree.walk(foo), &[(foo, tree.index(foo)), (bar, tree.index(bar)), (baz, tree.index(baz)), (qux, tree.index(qux))]);
    assert_eq!(tree.walk(bar), &[(bar, tree.index(bar)), (baz, tree.index(baz))]);
    assert_eq!(tree.walk(baz), &[(baz, tree.index(baz))]);
    assert_eq!(tree.walk(qux), &[(qux, tree.index(qux))]);
    assert_eq!(tree.walk(quux), &[(quux, tree.index(quux))]);

    for node_id in &[root, foo, bar, baz, qux, quux] {
        assert_eq!(
            tree.walk(*node_id).into_iter().map(|(index, link)| (index, format!("{:?}", link))).collect::<Vec<_>>(),
            tree.walk_mut(*node_id).into_iter().map(|(index, link)| (index, format!("{:?}", link))).collect::<Vec<_>>()
        );
    }
}

#[test]
fn test_move_append_child_keeps_subtree() {
    let mut tree = Tree::new();
    let root = tree.attach("root");
    let foo = tree.append_child(root, "foo");
    let bar = tree.append_child(foo, "bar");
    let baz = tree.append_child(root, "baz");

    assert!(tree.is_valid_move(foo, baz));
    assert_eq!(tree.move_position(foo).append_child(baz), foo);

    let ids: Vec<_> = tree.children(root).into_iter().map(|(id, _)| id).collect();
    assert_eq!(ids, [baz]);
    let ids: Vec<_> = tree.children(baz).into_iter().map(|(id, _)| id).collect();
    assert_eq!(ids, [foo]);
    let ids: Vec<_> = tree.children(foo).into_iter().map(|(id, _)| id).collect();
    assert_eq!(ids, [bar]);
    assert_eq!(tree.index(foo).parent(), Some(baz));
    assert_eq!(*tree.index(foo).data(), "foo");
}

#[test]
fn test_move_prepend_insert_before_and_after() {
    let mut tree = Tree::new();
    let root = tree.attach("root");
    let a = tree.append_child(root, "a");
    let b = tree.append_child(root, "b");
    let c = tree.append_child(root, "c");

    assert_eq!(tree.move_position(c).prepend_child(root), c);
    let ids: Vec<_> = tree.children(root).into_iter().map(|(id, _)| id).collect();
    assert_eq!(ids, [c, a, b]);

    assert_eq!(tree.move_position(c).insert_after(b), c);
    let ids: Vec<_> = tree.children(root).into_iter().map(|(id, _)| id).collect();
    assert_eq!(ids, [a, b, c]);

    assert_eq!(tree.move_position(a).insert_before(c), a);
    let ids: Vec<_> = tree.children(root).into_iter().map(|(id, _)| id).collect();
    assert_eq!(ids, [b, a, c]);
    assert_eq!(tree.index(b).prev_sibling(), None);
    assert_eq!(tree.index(a).prev_sibling(), Some(b));
    assert_eq!(tree.index(a).next_sibling(), Some(c));
    assert_eq!(tree.index(root).first_child(), Some(b));
    assert_eq!(tree.index(root).last_child(), Some(c));
}

#[test]
fn test_is_valid_move() {
    let mut tree = Tree::new();
    let root = tree.attach("root");
    let foo = tree.append_child(root, "foo");
    let bar = tree.append_child(foo, "bar");
    assert!(!tree.is_valid_move(foo, foo));
    assert!(!tree.is_valid_move(foo, bar));
    assert!(!tree.is_valid_move(root, bar));
    assert!(tree.is_valid_move(bar, root));
}

#[test]
fn test_mut_views_write_through() {
    let mut tree = Tree::new();
    let root = tree.attach(1u32);
    let foo = tree.append_child(root, 2u32);
    let bar = tree.append_child(root, 3u32);
    for (_, link) in tree.children_mut(root) {
        link.current.data *= 10;
    }
    assert_eq!(*tree.index(foo).data(), 20);
    assert_eq!(*tree.index(bar).data(), 30);
    for (_, link) in tree.walk_mut(root) {
        link.current.data += 1;
    }
    assert_eq!(*tree.index(root).data(), 2);
    assert_eq!(*tree.index(foo).data(), 21);
    let links = tree.links_mut(vec![bar]);
    assert_eq!(links.len(), 1);
}

#[test]
fn test_node_from() {
    let node = Node::from("x");
    assert_eq!(node, Node { data: "x", first_child: None, last_child: None });
}
