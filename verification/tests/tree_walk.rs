use yuiui::tree::Tree;
use yuiui::tree_walk::{walk_next_node, WalkDirection};

fn walk_all<T>(tree: &Tree<T>, root: usize) -> Vec<(usize, WalkDirection)> {
    let mut steps = vec![(root, WalkDirection::Downward)];
    loop {
        let (node, direction) = {
            let (n, d) = steps.last().unwrap();
            (*n, match d {
                WalkDirection::Downward => WalkDirection::Downward,
                WalkDirection::Sideward => WalkDirection::Sideward,
                WalkDirection::Upward => WalkDirection::Upward,
            })
        };
        match walk_next_node(node, root, tree.index(node), &direction) {
            Some(next) => steps.push(next),
            None => break,
        }
    }
    steps
}

#[test]
fn test_walk_next_node_round_trip() {
    let mut tree = Tree::new();
    let root = tree.attach("root");
    let foo = tree.append_child(root, "foo");
    let bar = tree.append_child(foo, "bar");
    let baz = tree.append_child(root, "baz");

    assert_eq!(walk_all(&tree, root), vec![
        (root, WalkDirection::Downward),
        (foo, WalkDirection::Downward),
        (bar, WalkDirection::Downward),
        (foo, WalkDirection::Upward),
        (baz, WalkDirection::Sideward),
        (root, WalkDirection::Upward),
    ]);
}

#[test]
fn test_walk_next_node_single_node() {
    let mut tree = Tree::new();
    let root = tree.attach(0u8);
    assert_eq!(walk_next_node(root, root, tree.index(root), &WalkDirection::Downward), None);
    assert_eq!(walk_next_node(root, root, tree.index(root), &WalkDirection::Upward), None);
}

#[test]
fn test_walk_directions_matches_steps() {
    let mut tree = Tree::new();
    let root = tree.attach("root");
    let foo = tree.append_child(root, "foo");
    let bar = tree.append_child(foo, "bar");
    let qux = tree.append_child(foo, "qux");
    let baz = tree.append_child(root, "baz");

    let expected = vec![
        (root, WalkDirection::Downward),
        (foo, WalkDirection::Downward),
        (bar, WalkDirection::Downward),
        (qux, WalkDirection::Sideward),
        (foo, WalkDirection::Upward),
        (baz, WalkDirection::Sideward),
        (root, WalkDirection::Upward),
    ];
    assert_eq!(tree.walk_directions(root), expected);
    assert_eq!(walk_all(&tree, root), expected);

    let entered: Vec<_> = tree
        .walk_directions(root)
        .into_iter()
        .filter(|(_, d)| *d != WalkDirection::Upward)
        .map(|(id, _)| id)
        .collect();
    let walked: Vec<_> = tree.walk(root).into_iter().map(|(id, _)| id).collect();
    assert_eq!(entered, walked);

    assert_eq!(tree.walk_directions(bar), vec![(bar, WalkDirection::Downward)]);
    assert_eq!(
        tree.walk_directions(foo),
        vec![
            (foo, WalkDirection::Downward),
            (bar, WalkDirection::Downward),
            (qux, WalkDirection::Sideward),
            (foo, WalkDirection::Upward),
        ]
    );
}
