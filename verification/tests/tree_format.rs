use yuiui::tree::Tree;
use yuiui::tree_format::FormatToken::{Close, Indent, Newline, Open};

#[test]
fn test_format_outline() {
    let mut tree = Tree::new();
    let root = tree.attach("root");
    let foo = tree.append_child(root, "foo");
    let bar = tree.append_child(foo, "bar");
    let baz = tree.append_child(root, "baz");

    assert_eq!(
        tree.format(root),
        vec![
            Indent(0), Open(root), Newline,
            Indent(1), Open(foo), Newline,
            Indent(2), Open(bar), Close(bar),
            Newline, Indent(1), Close(foo),
            Newline,
            Indent(1), Open(baz), Close(baz),
            Newline, Indent(0), Close(root),
        ]
    );
}

#[test]
fn test_format_includes_following_siblings() {
    let mut tree = Tree::new();
    let root = tree.attach("root");
    let foo = tree.append_child(root, "foo");
    let bar = tree.append_child(foo, "bar");
    let baz = tree.append_child(root, "baz");

    assert_eq!(
        tree.format(foo),
        vec![
            Indent(0), Open(foo), Newline,
            Indent(1), Open(bar), Close(bar),
            Newline, Indent(0), Close(foo),
            Newline,
            Indent(0), Open(baz), Close(baz),
        ]
    );
    assert_eq!(tree.format(baz), vec![Indent(0), Open(baz), Close(baz)]);
}
