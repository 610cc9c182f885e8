use yuiui::id::Id;
use yuiui::id_tree::IdTree;

#[test]
fn test_insert() {
    //      +-- *2 --- *5
    //      |
    // *1 --+--- 3 -+- *6
    //      |       |
    //      |       +- *7
    //      |
    //      +--- 4 ---- 8 --- *9
    let id_tree = IdTree::from_iter(vec![
        (vec![], 1),
        (vec![Id::new(2)], 2),
        (vec![Id::new(2), Id::new(5)], 3),
        (vec![Id::new(3), Id::new(6)], 4),
        (vec![Id::new(3), Id::new(7)], 5),
        (vec![Id::new(4), Id::new(8), Id::new(9)], 6),
    ]);

    let cursor = id_tree.root();
    assert_eq!(cursor.current().id(), Id::new(1));
    assert_eq!(cursor.current().data().copied(), Some(1));

    let children = id_tree
        .root()
        .children()
        .into_iter()
        .map(|cursor| (cursor.current().id(), cursor.current().data().copied()))
        .collect::<Vec<_>>();
    assert_eq!(
        children,
        vec![
            (Id::new(2), Some(2)),
            (Id::new(3), None),
            (Id::new(4), None),
        ]
    );

    let descendants = id_tree
        .root()
        .descendants()
        .into_iter()
        .map(|cursor| (cursor.current().id(), cursor.current().data().copied()))
        .collect::<Vec<_>>();
    assert_eq!(
        descendants,
        vec![
            (Id::new(2), Some(2)),
            (Id::new(3), None),
            (Id::new(4), None),
            (Id::new(5), Some(3)),
            (Id::new(6), Some(4)),
            (Id::new(7), Some(5)),
            (Id::new(8), None),
            (Id::new(9), Some(6)),
        ]
    );
}

#[test]
fn test_insert_then_update() {
    let mut tree: IdTree<u32> = IdTree::new();
    assert!(tree.is_empty());
    tree.insert(&[Id::new(2), Id::new(3)], 10);
    assert!(!tree.is_empty());
    tree.insert_or_update(&[Id::new(2), Id::new(3)], 5, |a, b| a + b);
    tree.insert_or_update(&[Id::new(2)], 7, |a, b| a * b);
    let kids = tree.root().children();
    assert_eq!(kids.len(), 1);
    assert_eq!(kids[0].current().data().copied(), Some(7));
    let grand = kids[0].children();
    assert_eq!(grand.len(), 1);
    assert_eq!(grand[0].current().id(), Id::new(3));
    assert_eq!(grand[0].current().data().copied(), Some(15));
}

#[test]
fn test_default_is_root_only() {
    let tree: IdTree<()> = IdTree::default();
    assert!(tree.is_empty());
    assert_eq!(tree.root().current().id(), Id::root());
    assert!(tree.root().children().is_empty());
    assert!(tree.root().descendants().is_empty());
}
