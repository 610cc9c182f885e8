use yuiui::reconciler::{ReconcileResult, Reconciler};

fn run(old_keys: Vec<u64>, new_keys: Vec<u64>) -> Vec<String> {
    let old_nodes: Vec<Option<usize>> = (0..old_keys.len()).map(|i| Some(100 + i)).collect();
    let new_nodes: Vec<Option<char>> = (0..new_keys.len()).map(|i| Some((b'a' + i as u8) as char)).collect();
    let mut r = Reconciler::new(old_keys, old_nodes, new_keys, new_nodes);
    let mut out = Vec::new();
    while let Some(result) = r.next() {
        out.push(match result {
            ReconcileResult::New(e) => format!("new {}", e),
            ReconcileResult::NewPlacement(before, e) => format!("new {} before {}", e, before),
            ReconcileResult::Update(o, e) => format!("update {} with {}", o, e),
            ReconcileResult::UpdatePlacement(o, before, e) => format!("update {} with {} before {}", o, e, before),
            ReconcileResult::Deletion(o) => format!("delete {}", o),
        });
    }
    out
}

#[test]
fn test_same_keys_update_in_place() {
    assert_eq!(run(vec![1, 2, 3], vec![1, 2, 3]), ["update 100 with a", "update 101 with b", "update 102 with c"]);
}

#[test]
fn test_all_new_and_all_deleted() {
    assert_eq!(run(vec![], vec![7, 8]), ["new a", "new b"]);
    assert_eq!(run(vec![7, 8], vec![]), ["delete 100", "delete 101"]);
}

#[test]
fn test_tail_matches_then_new_goes_before_it() {
    assert_eq!(run(vec![2], vec![1, 2]), ["update 100 with b", "new a before 100"]);
}

#[test]
fn test_cross_matches_move_nodes() {
    assert_eq!(run(vec![1, 2], vec![2, 1]), ["update 100 with b before 101", "update 101 with a"]);
}

#[test]
fn test_deletes_old_tail_missing_from_new() {
    // Neither end matches at first: the old tail's key is gone, so it is deleted.
    assert_eq!(
        run(vec![1, 2, 3], vec![2, 4, 1, 5]),
        [
            "delete 102",
            "update 101 with a before 100",
            "new b before 100",
            "update 100 with c",
            "new d",
        ]
    );
}

#[test]
fn test_reuse_through_key_map() {
    // The new head's key sits in the middle of the old window.
    assert_eq!(
        run(vec![1, 2, 3], vec![2, 3, 1, 5]),
        [
            "update 101 with a before 100",
            "update 102 with b before 100",
            "update 100 with c",
            "new d",
        ]
    );
}
