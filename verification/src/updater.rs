use vstd::prelude::*;

use crate::reconciler::ReconcileResult;
use crate::tree::{leaf, placed, unlinked, uprooted, with_data, Link, NodeId, Tree};

verus! {

/// Whether the tree can carry out `result` for the children of `target_id`: the nodes it
/// names are there, a node placed before another goes among that node's siblings, a moved
/// node does not go below itself, and a new node finds a free id.
pub open spec fn applicable<T>(tree: Tree<T>, target_id: NodeId, result: ReconcileResult<NodeId, T>) -> bool {
    match result {
        ReconcileResult::New(_) => tree@.contains_key(target_id) && tree.has_room(),
        ReconcileResult::NewPlacement(ref_id, _) => {
            &&& tree@.contains_key(ref_id)
            &&& tree@[ref_id].parent is Some
            &&& tree.has_room()
        },
        ReconcileResult::Update(node_id, _) => tree@.contains_key(node_id),
        ReconcileResult::UpdatePlacement(node_id, ref_id, _) => {
            &&& tree@.contains_key(node_id)
            &&& tree@.contains_key(ref_id)
            &&& tree@[ref_id].parent is Some
            &&& node_id != ref_id
            &&& !tree.is_descendant(ref_id, node_id)
        },
        ReconcileResult::Deletion(node_id) => tree@.contains_key(node_id),
    }
}

/// Carries out one instruction of the reconciler on the children of `target_id`:
/// - `New`: a node with the element's data becomes the last child of `target_id`;
/// - `NewPlacement`: a node with the element's data goes right before the reference node;
/// - `Update`: the node takes the element's data in place, where `should_update(new,
///   current)` says so;
/// - `UpdatePlacement`: the same, and the node moves, with its subtree, right before the
///   reference node;
/// - `Deletion`: the node's subtree leaves the tree.
pub fn handle_reconcile_result<T, F: Fn(&T, &T) -> bool>(
    tree: &mut Tree<T>,
    target_id: NodeId,
    result: ReconcileResult<NodeId, T>,
    should_update: F,
)
    requires
        old(tree).wf(),
        applicable(*old(tree), target_id, result),
        forall|next: &T, current: &T| #[trigger] should_update.requires((next, current)),
    ensures
        final(tree).wf(),
        match result {
            ReconcileResult::New(data) => {
                let id = old(tree).next_id();
                &&& !old(tree)@.contains_key(id)
                &&& final(tree)@.dom() == old(tree)@.dom().insert(id)
                &&& final(tree)@[id].current == leaf(data)
                &&& final(tree)@[id].parent == Some(target_id)
                &&& final(tree).kids_map() == old(tree).kids_map().insert(
                    target_id,
                    old(tree).children_of(target_id).push(id),
                ).insert(id, Seq::empty())
            },
            ReconcileResult::NewPlacement(ref_id, data) => {
                let id = old(tree).next_id();
                let parent = old(tree)@[ref_id].parent.unwrap();
                &&& !old(tree)@.contains_key(id)
                &&& final(tree)@.dom() == old(tree)@.dom().insert(id)
                &&& final(tree)@[id].current == leaf(data)
                &&& final(tree)@[id].parent == Some(parent)
                &&& final(tree).kids_map() == old(tree).kids_map().insert(
                    parent,
                    old(tree).children_of(parent).insert(old(tree).sibling_index(ref_id), id),
                ).insert(id, Seq::empty())
            },
            ReconcileResult::Update(node_id, data) => {
                &&& exists|replaced: bool|
                    {
                        &&& #[trigger] should_update.ensures((&data, &old(tree)@[node_id].current.data), replaced)
                        &&& final(tree)@ == if replaced {
                            old(tree)@.insert(node_id, with_data(old(tree)@[node_id], data))
                        } else {
                            old(tree)@
                        }
                    }
                &&& final(tree).kids_map() == old(tree).kids_map()
            },
            ReconcileResult::UpdatePlacement(node_id, ref_id, data) => {
                let parent = old(tree)@[ref_id].parent.unwrap();
                let moved = placed(
                    uprooted(old(tree)@, node_id),
                    node_id,
                    parent,
                    uprooted(old(tree)@, node_id)[ref_id].prev_sibling,
                    Some(ref_id),
                );
                &&& exists|replaced: bool|
                    {
                        &&& #[trigger] should_update.ensures((&data, &old(tree)@[node_id].current.data), replaced)
                        &&& final(tree)@ == if replaced {
                            moved.insert(node_id, with_data(moved[node_id], data))
                        } else {
                            moved
                        }
                    }
                &&& final(tree).kids_map() == old(tree).kids_after_move(
                    node_id,
                    parent,
                    old(tree).kids_after_uproot(node_id)[parent].index_of(ref_id),
                )
            },
            ReconcileResult::Deletion(node_id) => {
                &&& final(tree)@ == unlinked(
                    old(tree)@.remove_keys(old(tree).subtree_set(node_id)),
                    old(tree)@[node_id],
                )
                &&& final(tree).kids_map() == old(tree).kids_after_detach(node_id)
            },
        },
{
    match result {
        ReconcileResult::New(data) => {
            proof {
                let o = *old(tree);
                assert(o.node_ok(target_id));
                let cs = o.children_of(target_id);
                if cs.len() > 0 {
                    o.lemma_child_facts(target_id, cs.len() - 1);
                }
            }
            let id = tree.append_child(target_id, data);
            proof {
                assert(tree@.dom() =~= old(tree)@.dom().insert(id));
            }
        },
        ReconcileResult::NewPlacement(ref_id, data) => {
            proof {
                let o = *old(tree);
                assert(o.node_ok(ref_id));
                let p = o@[ref_id].parent.unwrap();
                assert(o.node_ok(p));
                o.lemma_sibling_index(ref_id);
                let k = o.sibling_index(ref_id);
                if k > 0 {
                    o.lemma_child_facts(p, k - 1);
                }
                o.lemma_child_facts(p, k);
            }
            let id = tree.insert_before(ref_id, data);
            proof {
                assert(tree@.dom() =~= old(tree)@.dom().insert(id));
            }
        },
        ReconcileResult::Update(node_id, data) => {
            let replaced = should_update(&data, tree.index(node_id).data());
            if replaced {
                tree.replace_data(node_id, data);
            }
        },
        ReconcileResult::UpdatePlacement(node_id, ref_id, data) => {
            let replaced = should_update(&data, tree.index(node_id).data());
            tree.move_position(node_id).insert_before(ref_id);
            if replaced {
                tree.replace_data(node_id, data);
            }
        },
        ReconcileResult::Deletion(node_id) => {
            tree.detach_subtree(node_id);
        },
    }
}

} // verus!
