use vstd::prelude::*;

use std::collections::HashMap;
use std::collections::HashSet;

verus! {

broadcast use vstd::std_specs::hash::group_hash_axioms;

/// One instruction for turning a list of old children into the list of new elements.
#[derive(Debug)]
pub enum ReconcileResult<OldNode, NewNode> {
    /// Append a node built from the element.
    New(NewNode),
    /// Insert a node built from the element before the given old node.
    NewPlacement(OldNode, NewNode),
    /// Update the old node in place with the element.
    Update(OldNode, NewNode),
    /// Update the first old node with the element and move it before the second.
    UpdatePlacement(OldNode, OldNode, NewNode),
    /// Remove the old node.
    Deletion(OldNode),
}

/// The abstract state of a reconciliation: both key lists, the nodes not handed out yet,
/// the open windows `old_head..old_edge` and `new_head..new_edge`, and for each new
/// position the old node that took it.
pub struct ReconcileState<OldNode, NewNode> {
    pub old_keys: Seq<u64>,
    pub old_nodes: Seq<Option<OldNode>>,
    pub new_keys: Seq<u64>,
    pub new_nodes: Seq<Option<NewNode>>,
    pub old_head: int,
    pub old_edge: int,
    pub new_head: int,
    pub new_edge: int,
    pub placed: Seq<Option<OldNode>>,
}

/// The map from each key to the last position where it occurs.
pub open spec fn key_index_map(keys: Seq<u64>) -> Map<u64, usize>
    decreases keys.len(),
{
    if keys.len() == 0 {
        Map::empty()
    } else {
        key_index_map(keys.drop_last()).insert(keys.last(), (keys.len() - 1) as usize)
    }
}

/// The first position in `from..to` whose node is still there, or `to` where there is none.
pub open spec fn first_filled<A>(nodes: Seq<Option<A>>, from: int, to: int) -> int
    decreases to - from,
{
    if from >= to || nodes[from] is Some {
        from
    } else {
        first_filled(nodes, from + 1, to)
    }
}

/// Each key in the map is found at the position it maps to, and that position is the last
/// one with this key.
pub proof fn lemma_key_index_map(keys: Seq<u64>, k: u64)
    requires
        keys.len() <= usize::MAX,
    ensures
        key_index_map(keys).contains_key(k) <==> keys.contains(k),
        key_index_map(keys).contains_key(k) ==> {
            let i = key_index_map(keys)[k] as int;
            &&& 0 <= i < keys.len()
            &&& keys[i] == k
            &&& forall|j: int| i < j < keys.len() ==> keys[j] != k
        },
    decreases keys.len(),
{
    if keys.len() > 0 {
        let ks = keys.drop_last();
        lemma_key_index_map(ks, k);
        if keys.last() != k && keys.contains(k) {
            let j = choose|j: int| 0 <= j < keys.len() && keys[j] == k;
            assert(ks[j] == k);
        }
        if ks.contains(k) {
            let j = choose|j: int| 0 <= j < ks.len() && ks[j] == k;
            assert(keys[j] == k);
        }
        if keys.last() == k {
            assert(keys[keys.len() - 1] == k);
        }
        assert forall|j: int| 0 <= j < ks.len() implies keys[j] == ks[j] by {}
    }
}

impl<OldNode, NewNode> ReconcileState<OldNode, NewNode> {
    /// Both windows are non-empty.
    pub open spec fn both_open(self) -> bool {
        self.old_head < self.old_edge && self.new_head < self.new_edge
    }

    /// The state once the old slots emptied at either end of the old window are skipped.
    pub open spec fn skipped(self) -> Self
        decreases self.old_edge - self.old_head,
    {
        if self.both_open() {
            if self.old_nodes[self.old_head] is None {
                Self { old_head: self.old_head + 1, ..self }.skipped()
            } else if self.old_nodes[self.old_edge - 1] is None {
                Self { old_edge: self.old_edge - 1, ..self }.skipped()
            } else {
                self
            }
        } else {
            self
        }
    }

    /// The decision when both windows are open and both ends of the old window hold nodes:
    /// match the heads, then the tails, then head against tail and tail against head;
    /// else drop an old end whose key no new element has; else place the new head, reusing
    /// the old node last seen with its key where that node is still there. In that last
    /// case the element placed, and the position the reused node takes, are those of the
    /// new head, so that every new element is handed out exactly once.
    pub open spec fn matched(self) -> (Self, Option<ReconcileResult<OldNode, NewNode>>) {
        let oh = self.old_nodes[self.old_head]->0;
        let ot = self.old_nodes[self.old_edge - 1]->0;
        let kh = self.old_keys[self.old_head];
        let kt = self.old_keys[self.old_edge - 1];
        let nh = self.new_keys[self.new_head];
        let nt = self.new_keys[self.new_edge - 1];
        let eh = self.new_nodes[self.new_head]->0;
        let et = self.new_nodes[self.new_edge - 1]->0;
        if kh == nh {
            (
                Self {
                    new_nodes: self.new_nodes.update(self.new_head, None),
                    placed: self.placed.update(self.new_head, Some(oh)),
                    old_head: self.old_head + 1,
                    new_head: self.new_head + 1,
                    ..self
                },
                Some(ReconcileResult::Update(oh, eh)),
            )
        } else if kt == nt {
            (
                Self {
                    new_nodes: self.new_nodes.update(self.new_edge - 1, None),
                    placed: self.placed.update(self.new_edge - 1, Some(ot)),
                    old_edge: self.old_edge - 1,
                    new_edge: self.new_edge - 1,
                    ..self
                },
                Some(ReconcileResult::Update(ot, et)),
            )
        } else if kh == nt {
            (
                Self {
                    new_nodes: self.new_nodes.update(self.new_edge - 1, None),
                    placed: self.placed.update(self.new_edge - 1, Some(oh)),
                    old_head: self.old_head + 1,
                    new_edge: self.new_edge - 1,
                    ..self
                },
                Some(ReconcileResult::UpdatePlacement(oh, ot, et)),
            )
        } else if kt == nh {
            (
                Self {
                    new_nodes: self.new_nodes.update(self.new_head, None),
                    placed: self.placed.update(self.new_head, Some(ot)),
                    old_edge: self.old_edge - 1,
                    new_head: self.new_head + 1,
                    ..self
                },
                Some(ReconcileResult::UpdatePlacement(ot, oh, eh)),
            )
        } else if !self.new_keys.contains(kh) {
            (Self { old_head: self.old_head + 1, ..self }, Some(ReconcileResult::Deletion(oh)))
        } else if !self.new_keys.contains(kt) {
            (Self { old_edge: self.old_edge - 1, ..self }, Some(ReconcileResult::Deletion(ot)))
        } else {
            let m = key_index_map(self.old_keys);
            if m.contains_key(nh) && self.old_nodes[m[nh] as int] is Some {
                let o = self.old_nodes[m[nh] as int]->0;
                (
                    Self {
                        old_nodes: self.old_nodes.update(m[nh] as int, None),
                        new_nodes: self.new_nodes.update(self.new_head, None),
                        placed: self.placed.update(self.new_head, Some(o)),
                        new_head: self.new_head + 1,
                        ..self
                    },
                    Some(ReconcileResult::UpdatePlacement(o, oh, eh)),
                )
            } else {
                (
                    Self {
                        new_nodes: self.new_nodes.update(self.new_head, None),
                        new_head: self.new_head + 1,
                        ..self
                    },
                    Some(ReconcileResult::NewPlacement(oh, eh)),
                )
            }
        }
    }

    /// The step once the old window is used up: the new head goes before the node that
    /// took the position after the new window, or at the end where there is none.
    pub open spec fn placed_new(self) -> (Self, Option<ReconcileResult<OldNode, NewNode>>) {
        let eh = self.new_nodes[self.new_head]->0;
        (
            Self {
                new_nodes: self.new_nodes.update(self.new_head, None),
                new_head: self.new_head + 1,
                ..self
            },
            Some(
                if self.new_edge < self.new_nodes.len() {
                    ReconcileResult::NewPlacement(self.placed[self.new_edge]->0, eh)
                } else {
                    ReconcileResult::New(eh)
                },
            ),
        )
    }

    /// The step once the new window is used up: the next old node still there is deleted.
    pub open spec fn drained(self) -> (Self, Option<ReconcileResult<OldNode, NewNode>>) {
        let i = first_filled(self.old_nodes, self.old_head, self.old_edge);
        if i < self.old_edge {
            (
                Self { old_nodes: self.old_nodes.update(i, None), old_head: i + 1, ..self },
                Some(ReconcileResult::Deletion(self.old_nodes[i]->0)),
            )
        } else {
            (Self { old_head: i, ..self }, None)
        }
    }

    /// The next instruction and the state after it; `None` ends the reconciliation.
    pub open spec fn step(self) -> (Self, Option<ReconcileResult<OldNode, NewNode>>) {
        let s = self.skipped();
        if s.both_open() {
            s.matched()
        } else if s.new_head < s.new_edge {
            s.placed_new()
        } else {
            s.drained()
        }
    }

    /// The positions and lists agree: the windows lie inside the lists, the new elements
    /// not handed out are exactly those of the new window, and every position after the
    /// new window was taken by an old node.
    pub open spec fn valid(self) -> bool {
        &&& self.old_keys.len() == self.old_nodes.len()
        &&& self.new_keys.len() == self.new_nodes.len()
        &&& self.placed.len() == self.new_nodes.len()
        &&& 0 <= self.old_head <= self.old_edge <= self.old_nodes.len()
        &&& 0 <= self.new_head <= self.new_edge <= self.new_nodes.len()
        &&& forall|i: int|
            0 <= i < self.new_nodes.len() ==> (#[trigger] self.new_nodes[i] is Some <==> self.new_head
                <= i < self.new_edge)
        &&& forall|i: int| self.new_edge <= i < self.placed.len() ==> #[trigger] self.placed[i] is Some
    }

    /// What is left to do: the widths of both windows.
    pub open spec fn work(self) -> int {
        (self.old_edge - self.old_head) + (self.new_edge - self.new_head)
    }
}

/// The new element that an instruction hands out, if any.
pub open spec fn new_element_of<OldNode, NewNode>(r: ReconcileResult<OldNode, NewNode>) -> Option<NewNode> {
    match r {
        ReconcileResult::New(e) => Some(e),
        ReconcileResult::NewPlacement(_, e) => Some(e),
        ReconcileResult::Update(_, e) => Some(e),
        ReconcileResult::UpdatePlacement(_, _, e) => Some(e),
        ReconcileResult::Deletion(_) => None,
    }
}

/// Skipping empty old slots only narrows the old window, and stops at ends that hold nodes.
pub proof fn lemma_skipped<OldNode, NewNode>(s: ReconcileState<OldNode, NewNode>)
    requires
        s.valid(),
    ensures
        s.skipped().valid(),
        s.skipped() == (ReconcileState {
            old_head: s.skipped().old_head,
            old_edge: s.skipped().old_edge,
            ..s
        }),
        s.old_head <= s.skipped().old_head <= s.skipped().old_edge <= s.old_edge,
        s.skipped().both_open() ==> s.old_nodes[s.skipped().old_head] is Some && s.old_nodes[s.skipped().old_edge - 1] is Some,
        forall|i: int|
            (s.old_head <= i < s.skipped().old_head || s.skipped().old_edge <= i < s.old_edge) ==> #[trigger] s.old_nodes[i] is None,
    decreases s.old_edge - s.old_head,
{
    if s.both_open() {
        if s.old_nodes[s.old_head] is None {
            lemma_skipped(ReconcileState { old_head: s.old_head + 1, ..s });
        } else if s.old_nodes[s.old_edge - 1] is None {
            lemma_skipped(ReconcileState { old_edge: s.old_edge - 1, ..s });
        }
    }
}

/// Once the old window is used up, the empty old slots of the window are skipped.
proof fn lemma_first_filled<A>(nodes: Seq<Option<A>>, from: int, to: int)
    ensures
        from <= to ==> from <= first_filled(nodes, from, to) <= to,
        from <= first_filled(nodes, from, to) < to ==> nodes[first_filled(nodes, from, to)] is Some,
        forall|j: int| from <= j < first_filled(nodes, from, to) ==> #[trigger] nodes[j] is None,
    decreases to - from,
{
    if from < to && nodes[from] is None {
        lemma_first_filled(nodes, from + 1, to);
    }
}

/// Every step keeps the state valid; a step that gives an instruction leaves strictly less
/// to do, so a reconciliation ends after at most as many instructions as there are old and
/// new children together.
#[verifier::spinoff_prover]
pub proof fn lemma_step_progress<OldNode, NewNode>(s: ReconcileState<OldNode, NewNode>)
    requires
        s.valid(),
    ensures
        s.step().0.valid(),
        s.step().1 is Some ==> s.step().0.work() < s.work(),
        s.step().1 is None ==> s.step().0.work() == 0,
{
    lemma_skipped(s);
    let t = s.skipped();
    lemma_first_filled(t.old_nodes, t.old_head, t.old_edge);
    if t.both_open() {
        lemma_key_index_map_bound(t.old_keys, t.new_keys[t.new_head]);
    }
}

/// Where the key map knows a key, its position lies inside the key list.
proof fn lemma_key_index_map_bound(keys: Seq<u64>, k: u64)
    ensures
        key_index_map(keys).contains_key(k) ==> (key_index_map(keys)[k] as int) < keys.len(),
    decreases keys.len(),
{
    if keys.len() > 0 {
        lemma_key_index_map_bound(keys.drop_last(), k);
    }
}

/// Each step hands out at most one new element, taking it out of the pending ones; a
/// deletion hands out none. When the steps end, no new element is pending: every new
/// element has been handed out exactly once.
#[verifier::spinoff_prover]
pub proof fn lemma_step_hands_out<OldNode, NewNode>(s: ReconcileState<OldNode, NewNode>)
    requires
        s.valid(),
    ensures
        s.step().1 matches Some(res) ==> match new_element_of(res) {
            Some(e) => exists|i: int|
                0 <= i < s.new_nodes.len() && s.new_nodes[i] == Some(e) && s.step().0.new_nodes
                    == s.new_nodes.update(i, None),
            None => s.step().0.new_nodes == s.new_nodes,
        },
        s.step().1 is None ==> forall|i: int| 0 <= i < s.new_nodes.len() ==> #[trigger] s.new_nodes[i] is None,
        s.step().1 is None ==> s.step().0 == s.skipped().drained().0,
{
    lemma_skipped(s);
    let t = s.skipped();
    lemma_first_filled(t.old_nodes, t.old_head, t.old_edge);
    if t.both_open() {
        let r = t.matched().1->0;
        let kh = t.old_keys[t.old_head];
        let kt = t.old_keys[t.old_edge - 1];
        let nh = t.new_keys[t.new_head];
        let nt = t.new_keys[t.new_edge - 1];
        if kh == nh {
            assert(s.new_nodes[t.new_head] == Some(new_element_of(r)->0));
        } else if kt == nt || kh == nt {
            assert(s.new_nodes[t.new_edge - 1] == Some(new_element_of(r)->0));
        } else if kt == nh {
            assert(s.new_nodes[t.new_head] == Some(new_element_of(r)->0));
        } else if !t.new_keys.contains(kh) || !t.new_keys.contains(kt) {
        } else {
            assert(s.new_nodes[t.new_head] == Some(new_element_of(r)->0));
        }
    } else if t.new_head < t.new_edge {
        let r = t.placed_new().1->0;
        assert(s.new_nodes[t.new_head] == Some(new_element_of(r)->0));
    }
}

/// An old node is only ever updated with a new element of the same key.
#[verifier::spinoff_prover]
pub proof fn lemma_step_reuses_by_key<OldNode, NewNode>(s: ReconcileState<OldNode, NewNode>)
    requires
        s.valid(),
        s.old_keys.len() <= usize::MAX,
    ensures
        s.step().1 matches Some(ReconcileResult::Update(o, e)) ==> exists|i: int, j: int|
            0 <= i < s.old_nodes.len() && 0 <= j < s.new_nodes.len() && s.old_nodes[i] == Some(o)
                && s.new_nodes[j] == Some(e) && s.old_keys[i] == s.new_keys[j],
        s.step().1 matches Some(ReconcileResult::UpdatePlacement(o, _, e)) ==> exists|i: int, j: int|
            0 <= i < s.old_nodes.len() && 0 <= j < s.new_nodes.len() && s.old_nodes[i] == Some(o)
                && s.new_nodes[j] == Some(e) && s.old_keys[i] == s.new_keys[j],
{
    lemma_skipped(s);
    let t = s.skipped();
    if t.both_open() {
        let kh = t.old_keys[t.old_head];
        let kt = t.old_keys[t.old_edge - 1];
        let nh = t.new_keys[t.new_head];
        let nt = t.new_keys[t.new_edge - 1];
        let (h, e) = (t.old_head, t.old_edge - 1);
        let (a, b) = (t.new_head, t.new_edge - 1);
        if kh == nh {
            assert(s.old_keys[h] == s.new_keys[a]);
        } else if kt == nt {
            assert(s.old_keys[e] == s.new_keys[b]);
        } else if kh == nt {
            assert(s.old_keys[h] == s.new_keys[b]);
        } else if kt == nh {
            assert(s.old_keys[e] == s.new_keys[a]);
        } else if !t.new_keys.contains(kh) || !t.new_keys.contains(kt) {
        } else {
            lemma_key_index_map(t.old_keys, nh);
            let m = key_index_map(t.old_keys);
            if m.contains_key(nh) {
                let i = m[nh] as int;
                assert(s.old_keys[i] == s.new_keys[a]);
            }
        }
    }
}

/// The old node an instruction updates, moves or deletes, if any.
pub open spec fn target_of<OldNode, NewNode>(r: ReconcileResult<OldNode, NewNode>) -> Option<OldNode> {
    match r {
        ReconcileResult::New(_) => None,
        ReconcileResult::NewPlacement(_, _) => None,
        ReconcileResult::Update(o, _) => Some(o),
        ReconcileResult::UpdatePlacement(o, _, _) => Some(o),
        ReconcileResult::Deletion(o) => Some(o),
    }
}

impl<OldNode, NewNode> ReconcileState<OldNode, NewNode> {
    /// Old position `i` has been dealt with: it lies outside the old window or its node
    /// was taken.
    pub open spec fn consumed(self, i: int) -> bool {
        !(self.old_head <= i < self.old_edge) || self.old_nodes[i] is None
    }

    /// No old node that was passed over and is still there has the key of a new element
    /// still to be placed.
    pub open spec fn settled(self) -> bool {
        forall|i: int, j: int|
            0 <= i < self.old_nodes.len() && !(self.old_head <= i < self.old_edge) && self.old_nodes[i] is Some
                && self.new_head <= j < self.new_edge ==> #[trigger] self.old_keys[i] != #[trigger] self.new_keys[j]
    }

    /// Each list of keys names every child once.
    pub open spec fn distinct_keys(self) -> bool {
        self.old_keys.no_duplicates() && self.new_keys.no_duplicates()
    }
}

/// With distinct keys, the reconciliation stays settled from step to step, and it starts
/// settled, with both windows spanning the whole lists.
pub proof fn law_step_settled<OldNode, NewNode>(s: ReconcileState<OldNode, NewNode>)
    requires
        s.valid(),
        s.distinct_keys(),
        s.settled(),
        s.old_keys.len() <= usize::MAX,
    ensures
        s.step().0.settled(),
        s.step().0.old_keys == s.old_keys,
        s.step().0.new_keys == s.new_keys,
{
    lemma_skipped(s);
    let t = s.skipped();
    lemma_first_filled(t.old_nodes, t.old_head, t.old_edge);
    let u = s.step().0;
    assert(t.settled()) by {
        assert forall|i: int, j: int|
            0 <= i < t.old_nodes.len() && !(t.old_head <= i < t.old_edge) && t.old_nodes[i] is Some
                && t.new_head <= j < t.new_edge implies #[trigger] t.old_keys[i] != #[trigger] t.new_keys[j] by {
            assert(s.old_keys[i] != s.new_keys[j]);
        }
    }
    if t.both_open() {
        assert(s.step() == t.matched());
        settled_matched(t);
    } else if t.new_head < t.new_edge {
        assert(s.step() == t.placed_new());
        assert forall|i: int, j: int|
            0 <= i < u.old_nodes.len() && !(u.old_head <= i < u.old_edge) && u.old_nodes[i] is Some
                && u.new_head <= j < u.new_edge implies #[trigger] u.old_keys[i] != #[trigger] u.new_keys[j] by {
            assert(t.old_keys[i] != t.new_keys[j]);
        }
    } else {
        assert(s.step() == t.drained());
    }
}

/// The matching step keeps a settled state settled.
proof fn settled_matched<OldNode, NewNode>(t: ReconcileState<OldNode, NewNode>)
    requires
        t.valid(),
        t.distinct_keys(),
        t.settled(),
        t.both_open(),
        t.old_keys.len() <= usize::MAX,
    ensures
        t.matched().0.settled(),
        t.matched().0.old_keys == t.old_keys,
        t.matched().0.new_keys == t.new_keys,
{
    let u = t.matched().0;
    let kh = t.old_keys[t.old_head];
    let kt = t.old_keys[t.old_edge - 1];
    let nh = t.new_keys[t.new_head];
    let nt = t.new_keys[t.new_edge - 1];
    assert forall|i: int, j: int|
        0 <= i < u.old_nodes.len() && !(u.old_head <= i < u.old_edge) && u.old_nodes[i] is Some
            && u.new_head <= j < u.new_edge implies #[trigger] u.old_keys[i] != #[trigger] u.new_keys[j] by {
        assert(u.old_keys == t.old_keys);
        assert(u.new_keys == t.new_keys);
        assert(t.new_head <= j < t.new_edge);
        if kh == nh {
            if i == t.old_head {
                assert(j != t.new_head);
                assert(t.new_keys[j] != t.new_keys[t.new_head]);
            } else {
                assert(t.old_keys[i] != t.new_keys[j]);
            }
        } else if kt == nt {
            if i == t.old_edge - 1 {
                assert(j != t.new_edge - 1);
                assert(t.new_keys[j] != t.new_keys[t.new_edge - 1]);
            } else {
                assert(t.old_keys[i] != t.new_keys[j]);
            }
        } else if kh == nt {
            if i == t.old_head {
                assert(j != t.new_edge - 1);
                assert(t.new_keys[j] != t.new_keys[t.new_edge - 1]);
            } else {
                assert(t.old_keys[i] != t.new_keys[j]);
            }
        } else if kt == nh {
            if i == t.old_edge - 1 {
                assert(j != t.new_head);
                assert(t.new_keys[j] != t.new_keys[t.new_head]);
            } else {
                assert(t.old_keys[i] != t.new_keys[j]);
            }
        } else if !t.new_keys.contains(kh) {
            if i == t.old_head {
                if t.old_keys[i] == t.new_keys[j] {
                    assert(t.new_keys.contains(kh));
                }
            } else {
                assert(t.old_keys[i] != t.new_keys[j]);
            }
        } else if !t.new_keys.contains(kt) {
            if i == t.old_edge - 1 {
                if t.old_keys[i] == t.new_keys[j] {
                    assert(t.new_keys.contains(kt));
                }
            } else {
                assert(t.old_keys[i] != t.new_keys[j]);
            }
        } else {
            let m = key_index_map(t.old_keys);
            lemma_key_index_map(t.old_keys, nh);
            if m.contains_key(nh) && t.old_nodes[m[nh] as int] is Some {
                assert(u.old_nodes == t.old_nodes.update(m[nh] as int, None));
                assert(i != m[nh] as int);
                assert(t.old_nodes[i] is Some);
            } else {
                assert(u.old_nodes == t.old_nodes);
            }
            assert(t.old_keys[i] != t.new_keys[j]);
        }
    }
}

/// With distinct keys and a settled state, every instruction updates, moves or deletes an
/// old node that was not dealt with before and is dealt with from then on, and deals with
/// no other old position; instructions that place a new node deal with none. So over a
/// whole reconciliation each old node is acted on exactly once at most.
pub proof fn law_step_targets_once<OldNode, NewNode>(s: ReconcileState<OldNode, NewNode>)
    requires
        s.valid(),
        s.distinct_keys(),
        s.settled(),
        s.old_keys.len() <= usize::MAX,
    ensures
        s.step().1 matches Some(res) ==> match target_of(res) {
            Some(o) => exists|i: int|
                0 <= i < s.old_nodes.len() && s.old_nodes[i] == Some(o) && !s.consumed(i) && s.step().0.consumed(i)
                    && forall|j: int| 0 <= j < s.old_nodes.len() && j != i ==> (#[trigger] s.step().0.consumed(j) <==> s.consumed(j)),
            None => forall|j: int| 0 <= j < s.old_nodes.len() ==> (#[trigger] s.step().0.consumed(j) <==> s.consumed(j)),
        },
{
    lemma_skipped(s);
    let t = s.skipped();
    lemma_first_filled(t.old_nodes, t.old_head, t.old_edge);
    assert forall|j: int| 0 <= j < s.old_nodes.len() implies (#[trigger] t.consumed(j) <==> s.consumed(j)) by {}
    assert(t.settled()) by {
        assert forall|i: int, j: int|
            0 <= i < t.old_nodes.len() && !(t.old_head <= i < t.old_edge) && t.old_nodes[i] is Some
                && t.new_head <= j < t.new_edge implies #[trigger] t.old_keys[i] != #[trigger] t.new_keys[j] by {
            assert(s.old_keys[i] != s.new_keys[j]);
        }
    }
    if t.both_open() {
        assert(s.step() == t.matched());
        targets_once_matched(t);
        let u = t.matched().0;
        if let Some(res) = s.step().1 {
            if let Some(o) = target_of(res) {
                let i = choose|i: int|
                    0 <= i < t.old_nodes.len() && t.old_nodes[i] == Some(o) && !t.consumed(i) && t.matched().0.consumed(i)
                        && forall|j: int| 0 <= j < t.old_nodes.len() && j != i ==> (#[trigger] t.matched().0.consumed(j) <==> t.consumed(j));
                assert(s.old_nodes[i] == Some(o) && !s.consumed(i));
                assert forall|j: int| 0 <= j < s.old_nodes.len() && j != i implies (#[trigger] u.consumed(j) <==> s.consumed(j)) by {
                    assert(u.consumed(j) == t.consumed(j));
                }
            } else {
                assert forall|j: int| 0 <= j < s.old_nodes.len() implies (#[trigger] u.consumed(j) <==> s.consumed(j)) by {
                    assert(u.consumed(j) == t.consumed(j));
                }
            }
        }
    } else if t.new_head < t.new_edge {
        assert(s.step() == t.placed_new());
        let u = t.placed_new().0;
        assert forall|j: int| 0 <= j < s.old_nodes.len() implies (#[trigger] u.consumed(j) <==> s.consumed(j)) by {
            assert(u.consumed(j) == t.consumed(j));
        }
    } else {
        assert(s.step() == t.drained());
        let u = t.drained().0;
        let i = first_filled(t.old_nodes, t.old_head, t.old_edge);
        if i < t.old_edge {
            assert(s.old_nodes[i] == Some(target_of(s.step().1->0)->0));
            assert(!s.consumed(i));
            assert(u.consumed(i));
            assert forall|j: int| 0 <= j < s.old_nodes.len() && j != i implies (#[trigger] u.consumed(j) <==> s.consumed(j)) by {
                assert(u.consumed(j) == t.consumed(j));
            }
        } else {
            assert forall|j: int| 0 <= j < s.old_nodes.len() implies (#[trigger] u.consumed(j) <==> s.consumed(j)) by {
                assert(u.consumed(j) == t.consumed(j));
            }
        }
    }
}

/// The matching step deals with exactly the old node it acts on.
proof fn targets_once_matched<OldNode, NewNode>(t: ReconcileState<OldNode, NewNode>)
    requires
        t.valid(),
        t.distinct_keys(),
        t.settled(),
        t.both_open(),
        t.old_nodes[t.old_head] is Some,
        t.old_nodes[t.old_edge - 1] is Some,
        t.old_keys.len() <= usize::MAX,
    ensures
        t.matched().1 matches Some(res) && match target_of(res) {
            Some(o) => exists|i: int|
                0 <= i < t.old_nodes.len() && t.old_nodes[i] == Some(o) && !t.consumed(i) && t.matched().0.consumed(i)
                    && forall|j: int| 0 <= j < t.old_nodes.len() && j != i ==> (#[trigger] t.matched().0.consumed(j) <==> t.consumed(j)),
            None => forall|j: int| 0 <= j < t.old_nodes.len() ==> (#[trigger] t.matched().0.consumed(j) <==> t.consumed(j)),
        },
{
    let u = t.matched().0;
    let kh = t.old_keys[t.old_head];
    let kt = t.old_keys[t.old_edge - 1];
    let nh = t.new_keys[t.new_head];
    let nt = t.new_keys[t.new_edge - 1];
    let o = target_of(t.matched().1->0);
    if kh == nh || kh == nt {
        let i = t.old_head;
        assert(t.old_nodes[i] == Some(o->0));
        assert(!t.consumed(i) && u.consumed(i));
    } else if kt == nt || kt == nh {
        let i = t.old_edge - 1;
        assert(t.old_nodes[i] == Some(o->0));
        assert(!t.consumed(i) && u.consumed(i));
    } else if !t.new_keys.contains(kh) {
        let i = t.old_head;
        assert(t.old_nodes[i] == Some(o->0));
        assert(!t.consumed(i) && u.consumed(i));
    } else if !t.new_keys.contains(kt) {
        let i = t.old_edge - 1;
        assert(t.old_nodes[i] == Some(o->0));
        assert(!t.consumed(i) && u.consumed(i));
    } else {
        lemma_key_index_map(t.old_keys, nh);
        let m = key_index_map(t.old_keys);
        if m.contains_key(nh) && t.old_nodes[m[nh] as int] is Some {
            let i = m[nh] as int;
            assert(t.old_keys[i] == t.new_keys[t.new_head]);
            assert(t.old_head <= i < t.old_edge);
            assert(u.old_nodes == t.old_nodes.update(i, None));
            assert(t.old_nodes[i] == Some(o->0));
            assert(!t.consumed(i) && u.consumed(i));
        } else {
            assert(u.old_nodes == t.old_nodes);
        }
    }
}

impl<OldNode, NewNode> ReconcileState<OldNode, NewNode> {
    /// No position of the new window has been taken by an old node yet.
    pub open spec fn window_untaken(self) -> bool {
        forall|i: int| self.new_head <= i < self.new_edge ==> #[trigger] self.placed[i] is None
    }
}

/// A fresh reconciliation has taken no position, and no step takes a position that is
/// still inside the new window.
pub proof fn lemma_window_untaken<OldNode, NewNode>(s: ReconcileState<OldNode, NewNode>)
    requires
        s.valid(),
        s.window_untaken(),
    ensures
        s.step().0.window_untaken(),
{
    lemma_skipped(s);
    let t = s.skipped();
    lemma_first_filled(t.old_nodes, t.old_head, t.old_edge);
}

/// Once the old window is used up, the next new element goes right before the old node
/// that took the nearest later position, so that it ends up just ahead of it; where no
/// later position was taken it goes at the end. Either way the element handed out is the
/// one at the head of the new window.
pub proof fn law_new_goes_before_nearest_taken<OldNode, NewNode>(s: ReconcileState<OldNode, NewNode>)
    requires
        s.valid(),
        s.window_untaken(),
        !s.skipped().both_open(),
        s.new_head < s.new_edge,
    ensures
        match s.step().1 {
            Some(ReconcileResult::NewPlacement(r, e)) => {
                &&& Some(e) == s.new_nodes[s.new_head]
                &&& exists|j: int|
                    s.new_head < j < s.placed.len() && s.placed[j] == Some(r) && forall|k: int|
                        s.new_head < k < j ==> #[trigger] s.placed[k] is None
            },
            Some(ReconcileResult::New(e)) => {
                &&& Some(e) == s.new_nodes[s.new_head]
                &&& forall|k: int| s.new_head < k < s.placed.len() ==> #[trigger] s.placed[k] is None
            },
            _ => false,
        },
{
    lemma_skipped(s);
    let t = s.skipped();
    if t.new_edge < t.new_nodes.len() {
        let j = t.new_edge;
        assert(s.placed[j] is Some);
        assert(forall|k: int| s.new_head < k < j ==> #[trigger] s.placed[k] is None);
    }
}

/// Computes, one instruction at a time, how to turn the old children, each known by a key,
/// into the new elements, each known by a key, reusing old nodes whose keys match.
pub struct Reconciler<OldNode, NewNode> {
    old_keys: Vec<u64>,
    old_nodes: Vec<Option<OldNode>>,
    new_keys: Vec<u64>,
    new_nodes: Vec<Option<NewNode>>,
    old_head: usize,
    old_edge: usize,
    new_head: usize,
    new_edge: usize,
    new_index_to_old_node: Vec<Option<OldNode>>,
    old_key_to_index_map: Option<HashMap<u64, usize>>,
    new_key_set: Option<HashSet<u64>>,
}

impl<OldNode, NewNode> View for Reconciler<OldNode, NewNode> {
    type V = ReconcileState<OldNode, NewNode>;

    closed spec fn view(&self) -> ReconcileState<OldNode, NewNode> {
        ReconcileState {
            old_keys: self.old_keys@,
            old_nodes: self.old_nodes@,
            new_keys: self.new_keys@,
            new_nodes: self.new_nodes@,
            old_head: self.old_head as int,
            old_edge: self.old_edge as int,
            new_head: self.new_head as int,
            new_edge: self.new_edge as int,
            placed: self.new_index_to_old_node@,
        }
    }
}

/// Takes the value out of position `i`, leaving `None` there.
fn take_at<A>(v: &mut Vec<Option<A>>, i: usize) -> (e: Option<A>)
    requires
        i < old(v).len(),
    ensures
        e == old(v)@[i as int],
        final(v)@ == old(v)@.update(i as int, None),
{
    v.push(None);
    let e = v.swap_remove(i);
    proof {
        assert(final(v)@ =~= old(v)@.update(i as int, None));
    }
    e
}

impl<OldNode: Copy, NewNode> Reconciler<OldNode, NewNode> {
    /// The caches agree with the key lists.
    pub closed spec fn wf(&self) -> bool {
        &&& self@.valid()
        &&& self@.window_untaken()
        &&& self.old_keys@.len() <= usize::MAX
        &&& self.old_key_to_index_map matches Some(m) ==> m@ == key_index_map(self.old_keys@)
        &&& self.new_key_set matches Some(s) ==> forall|k: u64| s@.contains(k) <==> self.new_keys@.contains(k)
    }

    /// The state of a reconciler lies within its lists and has taken no position of its
    /// new window, so the laws on steps apply to it.
    pub proof fn lemma_state_of(&self)
        requires
            self.wf(),
        ensures
            self@.valid(),
            self@.window_untaken(),
    {
    }

    /// Starts a reconciliation; every new element has to be there.
    pub fn new(
        old_keys: Vec<u64>,
        old_nodes: Vec<Option<OldNode>>,
        new_keys: Vec<u64>,
        new_nodes: Vec<Option<NewNode>>,
    ) -> (r: Self)
        requires
            old_keys.len() == old_nodes.len(),
            new_keys.len() == new_nodes.len(),
            forall|i: int| 0 <= i < new_nodes.len() ==> #[trigger] new_nodes@[i] is Some,
        ensures
            r.wf(),
            r@.old_keys == old_keys@,
            r@.old_nodes == old_nodes@,
            r@.new_keys == new_keys@,
            r@.new_nodes == new_nodes@,
            r@.old_head == 0,
            r@.old_edge == old_keys.len(),
            r@.new_head == 0,
            r@.new_edge == new_keys.len(),
            r@.placed == Seq::new(new_keys.len() as nat, |i: int| None::<OldNode>),
    {
        let old_edge = old_keys.len();
        let new_edge = new_keys.len();
        let mut placed: Vec<Option<OldNode>> = Vec::with_capacity(new_edge);
        let mut i: usize = 0;
        while i < new_edge
            invariant
                i <= new_edge,
                placed@ == Seq::new(i as nat, |j: int| None::<OldNode>),
            decreases new_edge - i,
        {
            placed.push(None);
            i = i + 1;
            proof {
                assert(placed@ =~= Seq::new(i as nat, |j: int| None::<OldNode>));
            }
        }
        let r = Reconciler {
            old_keys,
            old_nodes,
            new_keys,
            new_nodes,
            old_head: 0,
            old_edge,
            new_head: 0,
            new_edge,
            new_index_to_old_node: placed,
            old_key_to_index_map: None,
            new_key_set: None,
        };
        proof {
            assert(r@.placed =~= Seq::new(new_edge as nat, |j: int| None::<OldNode>));
        }
        r
    }

    /// Whether some new element has key `k`; the set of new keys is built on first use.
    fn new_keys_contain(&mut self, k: u64) -> (b: bool)
        requires
            old(self).wf(),
        ensures
            final(self).wf(),
            final(self)@ == old(self)@,
            b == old(self)@.new_keys.contains(k),
    {
        if self.new_key_set.is_none() {
            let mut set: HashSet<u64> = HashSet::new();
            let mut i: usize = 0;
            while i < self.new_keys.len()
                invariant
                    i <= self.new_keys.len(),
                    forall|x: u64| set@.contains(x) <==> exists|j: int| 0 <= j < i && self.new_keys@[j] == x,
                decreases self.new_keys.len() - i,
            {
                set.insert(self.new_keys[i]);
                proof {
                    assert forall|x: u64| set@.contains(x) <==> exists|j: int| 0 <= j < i + 1 && self.new_keys@[j] == x by {
                        if x == self.new_keys@[i as int] {
                            assert(self.new_keys@[i as int] == x);
                        }
                    }
                }
                i = i + 1;
            }
            proof {
                assert forall|x: u64| set@.contains(x) <==> self.new_keys@.contains(x) by {
                    if self.new_keys@.contains(x) {
                        let j = choose|j: int| 0 <= j < self.new_keys@.len() && self.new_keys@[j] == x;
                        assert(self.new_keys@[j] == x);
                    }
                }
            }
            self.new_key_set = Some(set);
        }
        match &self.new_key_set {
            Some(set) => set.contains(&k),
            None => false,
        }
    }

    /// The last old position with key `k`; the map from keys to positions is built on first
    /// use.
    fn old_index_of(&mut self, k: u64) -> (r: Option<usize>)
        requires
            old(self).wf(),
        ensures
            final(self).wf(),
            final(self)@ == old(self)@,
            r == (if key_index_map(old(self)@.old_keys).contains_key(k) {
                Some(key_index_map(old(self)@.old_keys)[k])
            } else {
                None
            }),
    {
        if self.old_key_to_index_map.is_none() {
            let mut map: HashMap<u64, usize> = HashMap::with_capacity(self.old_keys.len());
            let mut i: usize = 0;
            while i < self.old_keys.len()
                invariant
                    i <= self.old_keys.len(),
                    map@ == key_index_map(self.old_keys@.subrange(0, i as int)),
                decreases self.old_keys.len() - i,
            {
                map.insert(self.old_keys[i], i);
                proof {
                    let ks = self.old_keys@.subrange(0, i + 1);
                    assert(ks.drop_last() =~= self.old_keys@.subrange(0, i as int));
                }
                i = i + 1;
            }
            proof {
                assert(self.old_keys@.subrange(0, i as int) =~= self.old_keys@);
            }
            self.old_key_to_index_map = Some(map);
        }
        match &self.old_key_to_index_map {
            Some(map) => match map.get(&k) {
                Some(i) => Some(*i),
                None => None,
            },
            None => None,
        }
    }

    /// Carries out `matched` on a state whose windows are open and whose old window holds
    /// nodes at both ends.
    #[verifier::spinoff_prover]
    fn decide(&mut self) -> (r: ReconcileResult<OldNode, NewNode>)
        requires
            old(self).wf(),
            old(self)@.both_open(),
            old(self)@.old_nodes[old(self)@.old_head] is Some,
            old(self)@.old_nodes[old(self)@.old_edge - 1] is Some,
        ensures
            final(self).wf(),
            (final(self)@, Some(r)) == old(self)@.matched(),
    {
        let ghost s = self@;
        let oh = self.old_nodes[self.old_head].unwrap();
        let ot = self.old_nodes[self.old_edge - 1].unwrap();
        let kh = self.old_keys[self.old_head];
        let kt = self.old_keys[self.old_edge - 1];
        let nh = self.new_keys[self.new_head];
        let nt = self.new_keys[self.new_edge - 1];
        if kh == nh {
            let e = take_at(&mut self.new_nodes, self.new_head).unwrap();
            self.new_index_to_old_node.set(self.new_head, Some(oh));
            self.old_head = self.old_head + 1;
            self.new_head = self.new_head + 1;
            ReconcileResult::Update(oh, e)
        } else if kt == nt {
            let e = take_at(&mut self.new_nodes, self.new_edge - 1).unwrap();
            self.new_index_to_old_node.set(self.new_edge - 1, Some(ot));
            self.old_edge = self.old_edge - 1;
            self.new_edge = self.new_edge - 1;
            ReconcileResult::Update(ot, e)
        } else if kh == nt {
            let e = take_at(&mut self.new_nodes, self.new_edge - 1).unwrap();
            self.new_index_to_old_node.set(self.new_edge - 1, Some(oh));
            self.old_head = self.old_head + 1;
            self.new_edge = self.new_edge - 1;
            ReconcileResult::UpdatePlacement(oh, ot, e)
        } else if kt == nh {
            let e = take_at(&mut self.new_nodes, self.new_head).unwrap();
            self.new_index_to_old_node.set(self.new_head, Some(ot));
            self.old_edge = self.old_edge - 1;
            self.new_head = self.new_head + 1;
            ReconcileResult::UpdatePlacement(ot, oh, e)
        } else if !self.new_keys_contain(kh) {
            self.old_head = self.old_head + 1;
            ReconcileResult::Deletion(oh)
        } else if !self.new_keys_contain(kt) {
            self.old_edge = self.old_edge - 1;
            ReconcileResult::Deletion(ot)
        } else {
            let found = self.old_index_of(nh);
            proof {
                lemma_key_index_map(s.old_keys, nh);
            }
            let reused = match found {
                Some(i) => take_at(&mut self.old_nodes, i),
                None => None,
            };
            let e = take_at(&mut self.new_nodes, self.new_head).unwrap();
            proof {
                if found.is_some() && reused.is_none() {
                    assert(self.old_nodes@ =~= s.old_nodes);
                }
            }
            let r = match reused {
                Some(o) => {
                    self.new_index_to_old_node.set(self.new_head, Some(o));
                    ReconcileResult::UpdatePlacement(o, oh, e)
                },
                None => ReconcileResult::NewPlacement(oh, e),
            };
            self.new_head = self.new_head + 1;
            r
        }
    }

    /// The next instruction, or `None` once every new element has been handed out and
    /// every old node that was not reused has been deleted.
    #[verifier::spinoff_prover]
    pub fn next(&mut self) -> (r: Option<ReconcileResult<OldNode, NewNode>>)
        requires
            old(self).wf(),
        ensures
            final(self).wf(),
            (final(self)@, r) == old(self)@.step(),
    {
        proof {
            lemma_window_untaken(old(self)@);
        }
        while self.old_head < self.old_edge && self.new_head < self.new_edge
            invariant
                self.wf(),
                self@.skipped() == old(self)@.skipped(),
            decreases self.old_edge - self.old_head,
        {
            if self.old_nodes[self.old_head].is_none() {
                self.old_head = self.old_head + 1;
                continue;
            }
            if self.old_nodes[self.old_edge - 1].is_none() {
                self.old_edge = self.old_edge - 1;
                continue;
            }
            let r = self.decide();
            return Some(r);
        }
        if self.new_head < self.new_edge {
            let e = take_at(&mut self.new_nodes, self.new_head).unwrap();
            let r = if self.new_edge < self.new_nodes.len() {
                ReconcileResult::NewPlacement(self.new_index_to_old_node[self.new_edge].unwrap(), e)
            } else {
                ReconcileResult::New(e)
            };
            self.new_head = self.new_head + 1;
            return Some(r);
        }
        let ghost s0 = self@;
        while self.old_head < self.old_edge
            invariant
                self.wf(),
                !s0.both_open(),
                s0.valid(),
                self@ == (ReconcileState { old_head: self@.old_head, ..s0 }),
                s0.old_head <= self@.old_head <= s0.old_edge,
                old(self)@.step() == s0.drained(),
                first_filled(s0.old_nodes, s0.old_head, s0.old_edge) == first_filled(
                    s0.old_nodes,
                    self@.old_head,
                    s0.old_edge,
                ),
            decreases self.old_edge - self.old_head,
        {
            let x = take_at(&mut self.old_nodes, self.old_head);
            if let Some(n) = x {
                self.old_head = self.old_head + 1;
                return Some(ReconcileResult::Deletion(n));
            }
            proof {
                assert(self.old_nodes@ =~= s0.old_nodes);
            }
            self.old_head = self.old_head + 1;
        }
        None
    }
}

} // verus!
