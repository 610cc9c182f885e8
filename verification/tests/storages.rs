use yuiui::element::ElementSeq;
use yuiui::hlist::{HCons, HNil};
use yuiui::id::Id;
use yuiui::storages::OptionStorage;
use yuiui::view_node::{CommitMode, Traversable, ViewNodeSeq};

type Log = Vec<String>;

fn part<T: std::fmt::Debug>(storage: &OptionStorage<T>, name: &str, next: &str) -> String {
    let text = format!("{:?}", storage);
    let start = text.find(&format!("{}: ", name)).unwrap() + name.len() + 2;
    let end = text[start..].find(next).unwrap() + start;
    text[start..end].to_string()
}

fn active_of<T: std::fmt::Debug>(storage: &OptionStorage<T>) -> String {
    part(storage, "active", ", staging")
}

fn staging_of<T: std::fmt::Debug>(storage: &OptionStorage<T>) -> String {
    part(storage, "staging", ", flags")
}

fn flags_of<T: std::fmt::Debug>(storage: &OptionStorage<T>) -> String {
    let text = format!("{:?}", storage);
    let at = text.rfind("flags").unwrap();
    text[at..].to_string()
}

#[test]
fn test_option_render_and_update_in_place() {
    let mut log = Log::new();
    let element: Option<Option<()>> = Some(None);
    let mut storage = element.render_children(&mut log);
    assert!(active_of(&storage).starts_with("Some(OptionStorage"));
    assert_eq!(staging_of(&storage), "None");
    assert!(flags_of(&storage).contains("updated: false, swapped: false, committed: false"));
    assert_eq!(ViewNodeSeq::<Log>::len(&storage), 0);

    // The same (empty) element: nothing changes.
    let element: Option<Option<()>> = Some(None);
    assert!(!element.update_children(&mut storage, &mut log));
    assert!(flags_of(&storage).contains("updated: false, swapped: false, committed: false"));

    // The inner element appears: the active nodes are updated in place.
    let element: Option<Option<()>> = Some(Some(()));
    assert!(element.update_children(&mut storage, &mut log));
    assert!(format!("{:?}", storage).ends_with(
        "flags: RenderFlags { updated: true, swapped: false, committed: false } }"
    ));

    // Committing the update mounts the inner nodes.
    assert!(!storage.commit(CommitMode::Update, &mut log));
    assert_eq!(ViewNodeSeq::<Log>::len(&storage), 0);
    assert!(format!("{:?}", storage).ends_with(
        "flags: RenderFlags { updated: false, swapped: false, committed: true } }"
    ));
    assert!(log.is_empty());
}

#[test]
fn test_option_appear_then_commit_mounts() {
    let mut log = Log::new();
    let none: Option<()> = None;
    let mut storage = none.render_children(&mut log);
    assert_eq!(active_of(&storage), "None");
    assert_eq!(ViewNodeSeq::<Log>::len(&storage), 0);

    // Nothing to nothing: no change.
    let none: Option<()> = None;
    assert!(!none.update_children(&mut storage, &mut log));

    // The element appears: it is staged and a swap is due.
    assert!(Some(()).update_children(&mut storage, &mut log));
    assert_eq!(active_of(&storage), "None");
    assert_eq!(staging_of(&storage), "Some(())");
    assert!(flags_of(&storage).contains("updated: false, swapped: true, committed: false"));

    // The staged nodes become active.
    assert!(!storage.commit(CommitMode::Update, &mut log));
    assert_eq!(active_of(&storage), "Some(())");
    assert_eq!(staging_of(&storage), "None");
    assert!(flags_of(&storage).contains("updated: false, swapped: false, committed: true"));
    assert_eq!(ViewNodeSeq::<Log>::len(&storage), 0);
}

#[test]
fn test_option_disappear_then_commit_unmounts_and_gc_drops() {
    let mut log = Log::new();
    let mut storage = Some(()).render_children(&mut log);
    assert!(!storage.commit(CommitMode::Mount, &mut log));
    assert!(flags_of(&storage).contains("updated: false, swapped: false, committed: true"));

    let none: Option<()> = None;
    assert!(none.update_children(&mut storage, &mut log));
    assert_eq!(active_of(&storage), "Some(())");
    assert!(flags_of(&storage).contains("updated: false, swapped: true, committed: true"));

    // The active nodes leave for the staging part.
    assert!(!storage.commit(CommitMode::Update, &mut log));
    assert_eq!(active_of(&storage), "None");
    assert_eq!(staging_of(&storage), "Some(())");
    assert_eq!(ViewNodeSeq::<Log>::len(&storage), 0);

    // No swap is due any more: the old nodes are dropped.
    ViewNodeSeq::<Log>::gc(&mut storage);
    assert_eq!(staging_of(&storage), "None");
}

#[test]
fn test_option_gc_keeps_staged_nodes_while_swap_is_due() {
    let mut log = Log::new();
    let none: Option<()> = None;
    let mut storage = none.render_children(&mut log);
    assert!(Some(()).update_children(&mut storage, &mut log));
    ViewNodeSeq::<Log>::gc(&mut storage);
    assert_eq!(staging_of(&storage), "Some(())");
    assert!(flags_of(&storage).contains("swapped: true"));
}

#[test]
fn test_option_swap_before_first_commit_while_unmounting() {
    let mut log = Log::new();
    let none: Option<()> = None;
    let mut storage = none.render_children(&mut log);
    assert!(Some(()).update_children(&mut storage, &mut log));
    // Never committed, and the storage itself is unmounted: the nodes change places.
    assert!(!storage.commit(CommitMode::Unmount, &mut log));
    assert_eq!(active_of(&storage), "Some(())");
    assert_eq!(staging_of(&storage), "None");
}

#[test]
fn test_option_traversal_reaches_no_node_without_children() {
    let mut log = Log::new();
    let mut storage = Some(()).render_children(&mut log);
    let mut visits = 3u32;
    storage.for_each(&mut visits, &mut log);
    assert_eq!(visits, 3);
    assert!(!storage.for_id(Id::new(4), &mut visits, &mut log));
    assert_eq!(active_of(&storage), "Some(())");

    let none: Option<()> = None;
    let mut empty = none.render_children(&mut log);
    assert!(!empty.for_id(Id::new(4), &mut visits, &mut log));
    assert_eq!(visits, 3);
}

#[test]
fn test_hlist_storage_updates_and_commits_each_part() {
    let mut log = Log::new();
    let elements = HCons { head: Some(()), tail: HCons { head: (), tail: HNil } };
    let mut storage = elements.render_children(&mut log);
    assert_eq!(ViewNodeSeq::<Log>::len(&storage), 0);

    let elements = HCons { head: Some(()), tail: HCons { head: (), tail: HNil } };
    assert!(!elements.update_children(&mut storage, &mut log));

    let none: Option<()> = None;
    let elements = HCons { head: none, tail: HCons { head: (), tail: HNil } };
    assert!(elements.update_children(&mut storage, &mut log));
    assert!(flags_of(&storage.head).contains("swapped: true"));

    assert!(!storage.commit(CommitMode::Update, &mut log));
    assert_eq!(ViewNodeSeq::<Log>::len(&storage), 0);
    ViewNodeSeq::<Log>::gc(&mut storage);
    assert_eq!(staging_of(&storage.head), "None");

    let mut visits = 0u32;
    storage.for_each(&mut visits, &mut log);
    assert!(!storage.for_id(Id::new(2), &mut visits, &mut log));
    assert_eq!(visits, 0);
    assert!(log.is_empty());
}
