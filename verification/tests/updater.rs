use yuiui::reconciler::ReconcileResult;
use yuiui::tree::{NodeId, Tree};
use yuiui::updater::handle_reconcile_result;

fn differs(next: &&'static str, current: &&'static str) -> bool {
    next != current
}

fn children_of(tree: &Tree<&'static str>, id: NodeId) -> Vec<(NodeId, &'static str)> {
    tree.children(id).into_iter().map(|(child_id, link)| (child_id, *link.data())).collect()
}

#[test]
fn test_handle_reconcile_results_on_children() {
    let mut tree = Tree::new();
    let root = tree.attach("root");

    handle_reconcile_result(&mut tree, root, ReconcileResult::New("a"), differs);
    handle_reconcile_result(&mut tree, root, ReconcileResult::New("b"), differs);
    assert_eq!(children_of(&tree, root), vec![(1, "a"), (2, "b")]);

    // A new node before `b`.
    handle_reconcile_result(&mut tree, root, ReconcileResult::NewPlacement(2, "c"), differs);
    assert_eq!(children_of(&tree, root), vec![(1, "a"), (3, "c"), (2, "b")]);

    // `a` takes new data in place.
    handle_reconcile_result(&mut tree, root, ReconcileResult::Update(1, "a2"), differs);
    assert_eq!(children_of(&tree, root), vec![(1, "a2"), (3, "c"), (2, "b")]);

    // `b` takes new data and moves before `a`, keeping its id and its child.
    tree.append_child(2, "b-child");
    handle_reconcile_result(&mut tree, root, ReconcileResult::UpdatePlacement(2, 1, "b2"), differs);
    assert_eq!(children_of(&tree, root), vec![(2, "b2"), (1, "a2"), (3, "c")]);
    assert_eq!(children_of(&tree, 2), vec![(4, "b-child")]);

    // `b` goes away with its subtree.
    handle_reconcile_result(&mut tree, root, ReconcileResult::Deletion(2), differs);
    assert_eq!(children_of(&tree, root), vec![(1, "a2"), (3, "c")]);
    assert!(!tree.is_attached(2));
    assert!(!tree.is_attached(4));
}

#[test]
fn test_replace_data_keeps_links() {
    let mut tree = Tree::new();
    let root = tree.attach("root");
    let foo = tree.append_child(root, "foo");
    let bar = tree.append_child(root, "bar");
    assert_eq!(tree.replace_data(foo, "baz"), "foo");
    assert_eq!(*tree.index(foo).data(), "baz");
    assert_eq!(tree.index(foo).next_sibling(), Some(bar));
    assert_eq!(tree.index(foo).parent(), Some(root));
}

#[test]
fn test_update_keeps_data_when_should_update_says_no() {
    let mut tree = Tree::new();
    let root = tree.attach("root");
    handle_reconcile_result(&mut tree, root, ReconcileResult::New("a"), differs);
    handle_reconcile_result(&mut tree, root, ReconcileResult::New("b"), differs);
    handle_reconcile_result(&mut tree, root, ReconcileResult::Update(1, "x"), |_: &&'static str, _: &&'static str| false);
    assert_eq!(children_of(&tree, root), vec![(1, "a"), (2, "b")]);
    handle_reconcile_result(&mut tree, root, ReconcileResult::UpdatePlacement(2, 1, "y"), |_: &&'static str, _: &&'static str| false);
    assert_eq!(children_of(&tree, root), vec![(2, "b"), (1, "a")]);
}
