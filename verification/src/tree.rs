use vstd::prelude::*;

use crate::slot_vec::SlotVec;
use crate::tree_order::ids_of;

verus! {

pub type NodeId = usize;

/// The data of a node and the ends of its list of children.
#[derive(Debug, PartialEq, Eq)]
pub struct Node<T> {
    pub data: T,
    pub first_child: Option<NodeId>,
    pub last_child: Option<NodeId>,
}

/// A node together with its place among its siblings and under its parent.
#[derive(Debug, PartialEq, Eq)]
pub struct Link<T> {
    pub current: Node<T>,
    pub prev_sibling: Option<NodeId>,
    pub next_sibling: Option<NodeId>,
    pub parent: Option<NodeId>,
}

pub open spec fn first_of(cs: Seq<NodeId>) -> Option<NodeId> {
    if cs.len() == 0 {
        None
    } else {
        Some(cs[0])
    }
}

pub open spec fn last_of(cs: Seq<NodeId>) -> Option<NodeId> {
    if cs.len() == 0 {
        None
    } else {
        Some(cs.last())
    }
}

/// A node with data and no children.
/// The link with its node holding `data` in place of what it held.
pub open spec fn with_data<T>(l: Link<T>, data: T) -> Link<T> {
    Link { current: Node { data, ..l.current }, ..l }
}

pub open spec fn leaf<T>(data: T) -> Node<T> {
    Node { data, first_child: None, last_child: None }
}

pub open spec fn with_first_child<T>(l: Link<T>, c: Option<NodeId>) -> Link<T> {
    Link { current: Node { first_child: c, ..l.current }, ..l }
}

pub open spec fn with_last_child<T>(l: Link<T>, c: Option<NodeId>) -> Link<T> {
    Link { current: Node { last_child: c, ..l.current }, ..l }
}

pub open spec fn with_next_sibling<T>(l: Link<T>, s: Option<NodeId>) -> Link<T> {
    Link { next_sibling: s, ..l }
}

pub open spec fn with_prev_sibling<T>(l: Link<T>, s: Option<NodeId>) -> Link<T> {
    Link { prev_sibling: s, ..l }
}

/// The links after a node with these neighbours and this parent was taken out of its
/// sibling list.
pub open spec fn unlinked_parts<T>(
    m: Map<NodeId, Link<T>>,
    prev: Option<NodeId>,
    next: Option<NodeId>,
    parent: Option<NodeId>,
) -> Map<NodeId, Link<T>> {
    match (prev, next) {
        (Some(p), Some(n)) => {
            let m1 = m.insert(n, with_prev_sibling(m[n], Some(p)));
            m1.insert(p, with_next_sibling(m1[p], Some(n)))
        },
        (Some(p), None) => {
            let m1 = match parent {
                Some(q) => m.insert(q, with_last_child(m[q], Some(p))),
                None => m,
            };
            m1.insert(p, with_next_sibling(m1[p], None))
        },
        (None, Some(n)) => {
            let m1 = match parent {
                Some(q) => m.insert(q, with_first_child(m[q], Some(n))),
                None => m,
            };
            m1.insert(n, with_prev_sibling(m1[n], None))
        },
        (None, None) => match parent {
            Some(q) => m.insert(q, with_last_child(with_first_child(m[q], None), None)),
            None => m,
        },
    }
}

/// The links after the node with link `l` was taken out of its sibling list.
pub open spec fn unlinked<T>(m: Map<NodeId, Link<T>>, l: Link<T>) -> Map<NodeId, Link<T>> {
    unlinked_parts(m, l.prev_sibling, l.next_sibling, l.parent)
}

/// The links after `target` was taken out of its sibling list and made a root, its
/// subtree staying below it.
pub open spec fn uprooted<T>(m: Map<NodeId, Link<T>>, target: NodeId) -> Map<NodeId, Link<T>> {
    unlinked(m, m[target]).insert(
        target,
        Link { current: m[target].current, prev_sibling: None, next_sibling: None, parent: None },
    )
}

/// The links after the root `target` was put under `parent` between `prev` and `next`.
pub open spec fn placed<T>(
    m: Map<NodeId, Link<T>>,
    target: NodeId,
    parent: NodeId,
    prev: Option<NodeId>,
    next: Option<NodeId>,
) -> Map<NodeId, Link<T>> {
    let m1 = match prev {
        Some(p) => m.insert(p, with_next_sibling(m[p], Some(target))),
        None => m.insert(parent, with_first_child(m[parent], Some(target))),
    };
    let m2 = match next {
        Some(n) => m1.insert(n, with_prev_sibling(m1[n], Some(target))),
        None => m1.insert(parent, with_last_child(m1[parent], Some(target))),
    };
    m2.insert(
        target,
        Link { current: m[target].current, prev_sibling: prev, next_sibling: next, parent: Some(parent) },
    )
}

impl<T> Node<T> {
    /// A childless node holding `data`.
    pub fn from(data: T) -> (node: Node<T>)
        ensures
            node == leaf(data),
    {
        Node { data, first_child: None, last_child: None }
    }
}

impl<T> Link<T> {
    pub fn is_root(&self) -> (b: bool)
        ensures
            b == self.parent.is_none(),
    {
        self.parent.is_none()
    }

    pub fn first_child(&self) -> (r: Option<NodeId>)
        ensures
            r == self.current.first_child,
    {
        self.current.first_child
    }

    pub fn last_child(&self) -> (r: Option<NodeId>)
        ensures
            r == self.current.last_child,
    {
        self.current.last_child
    }

    pub fn next_sibling(&self) -> (r: Option<NodeId>)
        ensures
            r == self.next_sibling,
    {
        self.next_sibling
    }

    pub fn prev_sibling(&self) -> (r: Option<NodeId>)
        ensures
            r == self.prev_sibling,
    {
        self.prev_sibling
    }

    pub fn parent(&self) -> (r: Option<NodeId>)
        ensures
            r == self.parent,
    {
        self.parent
    }

    /// The data of the node.
    pub fn data(&self) -> (r: &T)
        ensures
            *r == self.current.data,
    {
        &self.current.data
    }
}

/// An ordered forest of nodes stored in a slot vector; a node's id is its slot index.
pub struct Tree<T> {
    arena: SlotVec<Link<T>>,
    kids: Ghost<Map<NodeId, Seq<NodeId>>>,
    depth: Ghost<Map<NodeId, nat>>,
    height: Ghost<nat>,
}

impl<T> View for Tree<T> {
    type V = Map<NodeId, Link<T>>;

    /// The links by node id.
    open spec fn view(&self) -> Map<NodeId, Link<T>> {
        self.links()
    }
}

impl<T> Tree<T> {
    pub closed spec fn links(&self) -> Map<NodeId, Link<T>> {
        self.arena@
    }

    /// The children of a node, in order.
    pub open spec fn children_of(&self, n: NodeId) -> Seq<NodeId> {
        self.kids_map()[n]
    }

    pub closed spec fn kids_map(&self) -> Map<NodeId, Seq<NodeId>> {
        self.kids@
    }

    /// The number of ancestors of a node.
    pub open spec fn depth_of(&self, n: NodeId) -> nat {
        self.depth_map()[n]
    }

    pub closed spec fn depth_map(&self) -> Map<NodeId, nat> {
        self.depth@
    }

    /// A bound above every depth.
    pub closed spec fn height(&self) -> nat {
        self.height@
    }

    /// The number of slots of the arena, taken or freed.
    pub closed spec fn slot_count(&self) -> nat {
        self.arena.slot_count()
    }

    /// The ids freed and not taken again; the last one is given out next.
    pub closed spec fn free_ids(&self) -> Seq<NodeId> {
        self.arena.free_seq()
    }

    /// The id that the next inserted node receives: the most recently freed id, or a new
    /// one at the end.
    pub open spec fn next_id(&self) -> NodeId {
        if self.free_ids().len() > 0 {
            self.free_ids().last()
        } else {
            self.slot_count() as NodeId
        }
    }

    /// There is a free slot or room for another one.
    pub open spec fn has_room(&self) -> bool {
        self.slot_count() < isize::MAX
    }

    /// Every node id is below the slot count; the freed ids are below it too, hold no
    /// node and are listed once each; the slot count is the number of nodes and freed ids.
    pub proof fn law_ids(&self)
        requires
            self.wf(),
        ensures
            forall|n: NodeId| #[trigger] self@.contains_key(n) ==> n < self.slot_count(),
            forall|p: int|
                0 <= p < self.free_ids().len() ==> (#[trigger] self.free_ids()[p]) < self.slot_count()
                    && !self@.contains_key(self.free_ids()[p]),
            self.free_ids().no_duplicates(),
            self.slot_count() == self@.len() + self.free_ids().len(),
    {
        self.arena.law_slots();
    }

    /// The slot count after one insertion.
    pub open spec fn slot_count_after_insert(&self) -> nat {
        if self.free_ids().len() > 0 {
            self.slot_count()
        } else {
            self.slot_count() + 1
        }
    }

    /// The freed ids after one insertion: the one given out leaves the list.
    pub open spec fn free_ids_after_insert(&self) -> Seq<NodeId> {
        if self.free_ids().len() > 0 {
            self.free_ids().drop_last()
        } else {
            self.free_ids()
        }
    }

    pub closed spec fn arena_ok(&self) -> bool {
        &&& self.arena.wf()
        &&& self.kids@.dom() == self.arena@.dom()
        &&& self.depth@.dom() == self.arena@.dom()
    }

    /// Child `k` of `n` points back to `n` and to its neighbours.
    pub open spec fn child_ok(&self, n: NodeId, k: int) -> bool {
        let cs = self.children_of(n);
        let c = cs[k];
        &&& self@.contains_key(c)
        &&& self@[c].parent == Some(n)
        &&& self.depth_of(c) == self.depth_of(n) + 1
        &&& self@[c].prev_sibling == (if k == 0 {
            None
        } else {
            Some(cs[k - 1])
        })
        &&& self@[c].next_sibling == (if k == cs.len() - 1 {
            None
        } else {
            Some(cs[k + 1])
        })
    }

    pub open spec fn node_ok(&self, n: NodeId) -> bool {
        let l = self@[n];
        let cs = self.children_of(n);
        &&& cs.no_duplicates()
        &&& forall|k: int| 0 <= k < cs.len() ==> #[trigger] self.child_ok(n, k)
        &&& l.current.first_child == first_of(cs)
        &&& l.current.last_child == last_of(cs)
        &&& self.depth_of(n) < self.height()
        &&& match l.parent {
            None => self.depth_of(n) == 0 && l.prev_sibling.is_none() && l.next_sibling.is_none(),
            Some(p) => self@.contains_key(p) && self.children_of(p).contains(n),
        }
    }

    /// The links agree with the ordered children lists: parents, siblings and the first and
    /// last child point where the lists say, and depths grow by one from parent to child.
    pub open spec fn wf(&self) -> bool {
        &&& self.arena_ok()
        &&& forall|n: NodeId| #[trigger] self@.contains_key(n) ==> self.node_ok(n)
    }

    pub fn new() -> (tree: Tree<T>)
        ensures
            tree.wf(),
            tree@ == Map::<NodeId, Link<T>>::empty(),
            tree.slot_count() == 0,
            tree.free_ids() == Seq::<NodeId>::empty(),
    {
        Tree {
            arena: SlotVec::new(),
            kids: Ghost(Map::empty()),
            depth: Ghost(Map::empty()),
            height: Ghost(0),
        }
    }

    pub fn is_attached(&self, target_id: NodeId) -> (b: bool)
        requires
            self.wf(),
        ensures
            b == self@.contains_key(target_id),
    {
        self.arena.has(target_id)
    }

    /// The link of an attached node.
    pub fn index(&self, id: NodeId) -> (l: &Link<T>)
        requires
            self.wf(),
            self@.contains_key(id),
        ensures
            *l == self@[id],
    {
        self.arena.get(id).unwrap()
    }

    /// Puts `data` into the node `id` and gives back what it held; every link stays.
    pub fn replace_data(&mut self, id: NodeId, data: T) -> (previous: T)
        requires
            old(self).wf(),
            old(self)@.contains_key(id),
        ensures
            final(self).wf(),
            previous == old(self)@[id].current.data,
            final(self)@ == old(self)@.insert(id, with_data(old(self)@[id], data)),
            final(self).kids_map() == old(self).kids_map(),
            final(self).depth_map() == old(self).depth_map(),
            final(self).slot_count() == old(self).slot_count(),
            final(self).free_ids() == old(self).free_ids(),
    {
        let ghost o = *self;
        let l = self.arena.get_mut(id).unwrap();
        let mut previous = data;
        std::mem::swap(&mut previous, &mut l.current.data);
        proof {
            assert(self@ =~= o@.insert(id, with_data(o@[id], data)));
            assert(self.arena@.dom() =~= o.arena@.dom());
            assert(self.arena_ok());
            assert forall|n: NodeId| #[trigger] self@.contains_key(n) implies self.node_ok(n) by {
                assert(o.node_ok(n));
                let cs = self.children_of(n);
                assert forall|k: int| 0 <= k < cs.len() implies #[trigger] self.child_ok(n, k) by {
                    assert(o.child_ok(n, k));
                }
            }
        }
        previous
    }

    /// Adds a node without parent or siblings.
    #[verifier::spinoff_prover]
    pub fn attach(&mut self, data: T) -> (id: NodeId)
        requires
            old(self).wf(),
            old(self).has_room(),
        ensures
            final(self).wf(),
            id == old(self).next_id(),
            final(self).slot_count() == old(self).slot_count_after_insert(),
            final(self).free_ids() == old(self).free_ids_after_insert(),
            !old(self)@.contains_key(id),
            final(self)@ == old(self)@.insert(
                id,
                Link { current: leaf(data), prev_sibling: None, next_sibling: None, parent: None },
            ),
            final(self).kids_map() == old(self).kids_map().insert(id, Seq::empty()),
            final(self).depth_map() == old(self).depth_map().insert(id, 0),
    {
        let link = Link {
            current: Node { data, first_child: None, last_child: None },
            prev_sibling: None,
            next_sibling: None,
            parent: None,
        };
        let id = self.arena.insert(link);
        proof {
            self.kids@ = self.kids@.insert(id, Seq::empty());
            self.depth@ = self.depth@.insert(id, 0);
            if self.height@ == 0 {
                self.height@ = 1;
            }
            let o = old(self);
            assert forall|n: NodeId| #[trigger] self@.contains_key(n) implies self.node_ok(n) by {
                if n != id {
                    assert(o.node_ok(n));
                    let cs = self.children_of(n);
                    assert forall|k: int| 0 <= k < cs.len() implies #[trigger] self.child_ok(n, k) by {
                        assert(o.child_ok(n, k));
                    }
                    if let Some(p) = self@[n].parent {
                        assert(p != id);
                    }
                }
            }
        }
        id
    }

    /// The parent's link after a child was added at the end of its list.
    pub open spec fn appended_parent(l: Link<T>, id: NodeId) -> Link<T> {
        with_last_child(
            if l.current.last_child.is_none() {
                with_first_child(l, Some(id))
            } else {
                l
            },
            Some(id),
        )
    }

    /// The parent's link after a child was added at the front of its list.
    pub open spec fn prepended_parent(l: Link<T>, id: NodeId) -> Link<T> {
        with_first_child(
            if l.current.first_child.is_none() {
                with_last_child(l, Some(id))
            } else {
                l
            },
            Some(id),
        )
    }

    pub proof fn lemma_child_facts(&self, n: NodeId, k: int)
        requires
            self.wf(),
            self@.contains_key(n),
            0 <= k < self.children_of(n).len(),
        ensures
            self.child_ok(n, k),
            self@.contains_key(self.children_of(n)[k]),
            self.children_of(n)[k] != n,
    {
        assert(self.node_ok(n));
        assert(self.child_ok(n, k));
    }

    /// Adds a node as the last child of `parent_id`.
    #[verifier::spinoff_prover]
    pub fn append_child(&mut self, parent_id: NodeId, data: T) -> (id: NodeId)
        requires
            old(self).wf(),
            old(self)@.contains_key(parent_id),
            old(self).has_room(),
        ensures
            final(self).wf(),
            id == old(self).next_id(),
            final(self).slot_count() == old(self).slot_count_after_insert(),
            final(self).free_ids() == old(self).free_ids_after_insert(),
            !old(self)@.contains_key(id),
            final(self)@ == (match old(self)@[parent_id].current.last_child {
                Some(c) => old(self)@.insert(c, with_next_sibling(old(self)@[c], Some(id))),
                None => old(self)@,
            }).insert(parent_id, Self::appended_parent(old(self)@[parent_id], id)).insert(
                id,
                Link {
                    current: leaf(data),
                    prev_sibling: old(self)@[parent_id].current.last_child,
                    next_sibling: None,
                    parent: Some(parent_id),
                },
            ),
            final(self).kids_map() == old(self).kids_map().insert(
                parent_id,
                old(self).children_of(parent_id).push(id),
            ).insert(id, Seq::empty()),
            final(self).depth_map() == old(self).depth_map().insert(
                id,
                old(self).depth_of(parent_id) + 1,
            ),
    {
        let ghost o = *self;
        let new_node_id = self.arena.next_slot_index();
        let last = self.arena.get(parent_id).unwrap().current.last_child;
        proof {
            assert(o.node_ok(parent_id));
            if o.children_of(parent_id).len() > 0 {
                o.lemma_child_facts(parent_id, o.children_of(parent_id).len() - 1);
            }
        }
        match last {
            Some(child_id) => {
                let cl = self.arena.get_mut(child_id).unwrap();
                cl.next_sibling = Some(new_node_id);
            },
            None => {
                let pl = self.arena.get_mut(parent_id).unwrap();
                pl.current.first_child = Some(new_node_id);
            },
        }
        let pl = self.arena.get_mut(parent_id).unwrap();
        pl.current.last_child = Some(new_node_id);
        let link = Link {
            current: Node { data, first_child: None, last_child: None },
            prev_sibling: last,
            next_sibling: None,
            parent: Some(parent_id),
        };
        let id = self.arena.insert(link);
        proof {
            let cs0 = o.children_of(parent_id);
            self.kids@ = self.kids@.insert(parent_id, cs0.push(id)).insert(id, Seq::empty());
            self.depth@ = self.depth@.insert(id, o.depth_of(parent_id) + 1);
            if self.height@ <= o.depth_of(parent_id) + 1 {
                self.height@ = o.depth_of(parent_id) + 2;
            }
            assert(self@ =~= (match o@[parent_id].current.last_child {
                Some(c) => o@.insert(c, with_next_sibling(o@[c], Some(id))),
                None => o@,
            }).insert(parent_id, Self::appended_parent(o@[parent_id], id)).insert(
                id,
                Link {
                    current: leaf(data),
                    prev_sibling: o@[parent_id].current.last_child,
                    next_sibling: None,
                    parent: Some(parent_id),
                },
            ));
            assert(self.kids@.dom() =~= self.arena@.dom());
            assert(self.depth@.dom() =~= self.arena@.dom());
            assert(self.arena_ok());
            assert forall|n: NodeId| #[trigger] self@.contains_key(n) implies self.node_ok(n) by {
                if n == id {
                    assert(cs0.push(id)[cs0.len() as int] == id);
                } else if n == parent_id {
                    let cs = cs0.push(id);
                    assert forall|k: int| 0 <= k < cs.len() implies #[trigger] self.child_ok(parent_id, k) by {
                        if k < cs0.len() {
                            o.lemma_child_facts(parent_id, k);
                            assert(cs[k] == cs0[k]);
                            if k > 0 {
                                assert(cs[k - 1] == cs0[k - 1]);
                            }
                            if k < cs0.len() - 1 {
                                assert(cs[k + 1] == cs0[k + 1]);
                            }
                        }
                    }
                    assert(cs.no_duplicates()) by {
                        assert forall|a: int, b: int| 0 <= a < b < cs.len() implies cs[a] != cs[b] by {
                            if b == cs0.len() {
                                o.lemma_child_facts(parent_id, a);
                            }
                        }
                    }
                    if let Some(p) = o@[parent_id].parent {
                        assert(o.node_ok(parent_id));
                        assert(p != id);
                        if p == parent_id {
                            assert(o.children_of(parent_id).contains(parent_id));
                            let k = choose|k: int| 0 <= k < cs0.len() && cs0[k] == parent_id;
                            o.lemma_child_facts(parent_id, k);
                        }
                    }
                } else {
                    assert(o.node_ok(n));
                    let cs = self.children_of(n);
                    assert(cs == o.children_of(n));
                    assert forall|k: int| 0 <= k < cs.len() implies #[trigger] self.child_ok(n, k) by {
                        o.lemma_child_facts(n, k);
                        if Some(cs[k]) == last {
                            o.lemma_child_facts(parent_id, cs0.len() - 1);
                        }
                    }
                    match o@[n].parent {
                        Some(p) => {
                            if p == parent_id {
                                assert(cs0.push(id).contains(n)) by {
                                    let k = choose|k: int| 0 <= k < cs0.len() && cs0[k] == n;
                                    assert(cs0.push(id)[k] == n);
                                }
                            }
                        },
                        None => {
                            if Some(n) == last {
                                o.lemma_child_facts(parent_id, cs0.len() - 1);
                            }
                        },
                    }
                }
            }
        }
        id
    }

    /// Adds a node as the first child of `parent_id`.
    #[verifier::spinoff_prover]
    pub fn prepend_child(&mut self, parent_id: NodeId, data: T) -> (id: NodeId)
        requires
            old(self).wf(),
            old(self)@.contains_key(parent_id),
            old(self).has_room(),
        ensures
            final(self).wf(),
            id == old(self).next_id(),
            final(self).slot_count() == old(self).slot_count_after_insert(),
            final(self).free_ids() == old(self).free_ids_after_insert(),
            !old(self)@.contains_key(id),
            final(self)@ == (match old(self)@[parent_id].current.first_child {
                Some(c) => old(self)@.insert(c, with_prev_sibling(old(self)@[c], Some(id))),
                None => old(self)@,
            }).insert(parent_id, Self::prepended_parent(old(self)@[parent_id], id)).insert(
                id,
                Link {
                    current: leaf(data),
                    prev_sibling: None,
                    next_sibling: old(self)@[parent_id].current.first_child,
                    parent: Some(parent_id),
                },
            ),
            final(self).kids_map() == old(self).kids_map().insert(
                parent_id,
                seq![id] + old(self).children_of(parent_id),
            ).insert(id, Seq::empty()),
            final(self).depth_map() == old(self).depth_map().insert(
                id,
                old(self).depth_of(parent_id) + 1,
            ),
    {
        let ghost o = *self;
        let new_node_id = self.arena.next_slot_index();
        let first = self.arena.get(parent_id).unwrap().current.first_child;
        proof {
            assert(o.node_ok(parent_id));
            if o.children_of(parent_id).len() > 0 {
                o.lemma_child_facts(parent_id, 0);
            }
        }
        match first {
            Some(child_id) => {
                let cl = self.arena.get_mut(child_id).unwrap();
                cl.prev_sibling = Some(new_node_id);
            },
            None => {
                let pl = self.arena.get_mut(parent_id).unwrap();
                pl.current.last_child = Some(new_node_id);
            },
        }
        let pl = self.arena.get_mut(parent_id).unwrap();
        pl.current.first_child = Some(new_node_id);
        let link = Link {
            current: Node { data, first_child: None, last_child: None },
            prev_sibling: None,
            next_sibling: first,
            parent: Some(parent_id),
        };
        let id = self.arena.insert(link);
        proof {
            let cs0 = o.children_of(parent_id);
            let cs = seq![id] + cs0;
            self.kids@ = self.kids@.insert(parent_id, cs).insert(id, Seq::empty());
            self.depth@ = self.depth@.insert(id, o.depth_of(parent_id) + 1);
            if self.height@ <= o.depth_of(parent_id) + 1 {
                self.height@ = o.depth_of(parent_id) + 2;
            }
            assert(self@ =~= (match o@[parent_id].current.first_child {
                Some(c) => o@.insert(c, with_prev_sibling(o@[c], Some(id))),
                None => o@,
            }).insert(parent_id, Self::prepended_parent(o@[parent_id], id)).insert(
                id,
                Link {
                    current: leaf(data),
                    prev_sibling: None,
                    next_sibling: o@[parent_id].current.first_child,
                    parent: Some(parent_id),
                },
            ));
            assert(self.kids@.dom() =~= self.arena@.dom());
            assert(self.depth@.dom() =~= self.arena@.dom());
            assert forall|n: NodeId| #[trigger] self@.contains_key(n) implies self.node_ok(n) by {
                if n == id {
                    assert(cs[0] == id);
                } else if n == parent_id {
                    assert forall|k: int| 0 <= k < cs.len() implies #[trigger] self.child_ok(parent_id, k) by {
                        if k > 0 {
                            o.lemma_child_facts(parent_id, k - 1);
                            assert(cs[k] == cs0[k - 1]);
                            if k > 1 {
                                assert(cs[k - 1] == cs0[k - 2]);
                            }
                            if k < cs.len() - 1 {
                                assert(cs[k + 1] == cs0[k]);
                            }
                        }
                    }
                    assert(cs.no_duplicates()) by {
                        assert forall|a: int, b: int| 0 <= a < b < cs.len() implies cs[a] != cs[b] by {
                            if a == 0 {
                                o.lemma_child_facts(parent_id, b - 1);
                            } else {
                                assert(cs[a] == cs0[a - 1] && cs[b] == cs0[b - 1]);
                            }
                        }
                    }
                    if let Some(p) = o@[parent_id].parent {
                        assert(o.node_ok(parent_id));
                        if p == parent_id {
                            let k = choose|k: int| 0 <= k < cs0.len() && cs0[k] == parent_id;
                            o.lemma_child_facts(parent_id, k);
                        }
                    }
                } else {
                    assert(o.node_ok(n));
                    let cn = self.children_of(n);
                    assert(cn == o.children_of(n));
                    assert forall|k: int| 0 <= k < cn.len() implies #[trigger] self.child_ok(n, k) by {
                        o.lemma_child_facts(n, k);
                        if Some(cn[k]) == first {
                            o.lemma_child_facts(parent_id, 0);
                        }
                    }
                    match o@[n].parent {
                        Some(p) => {
                            if p == parent_id {
                                assert(cs.contains(n)) by {
                                    let k = choose|k: int| 0 <= k < cs0.len() && cs0[k] == n;
                                    assert(cs[k + 1] == n);
                                }
                            }
                        },
                        None => {
                            if Some(n) == first {
                                o.lemma_child_facts(parent_id, 0);
                            }
                        },
                    }
                }
            }
        }
        id
    }

    /// The position of `id` in the children list of its parent.
    pub open spec fn sibling_index(&self, id: NodeId) -> int {
        self.children_of(self@[id].parent.unwrap()).index_of(id)
    }

    pub proof fn lemma_sibling_index(&self, id: NodeId)
        requires
            self.wf(),
            self@.contains_key(id),
            self@[id].parent.is_some(),
        ensures
            ({
                let p = self@[id].parent.unwrap();
                let cs = self.children_of(p);
                let k = self.sibling_index(id);
                &&& self@.contains_key(p)
                &&& 0 <= k < cs.len()
                &&& cs[k] == id
                &&& self.child_ok(p, k)
                &&& forall|j: int| 0 <= j < cs.len() && cs[j] == id ==> j == k
            }),
    {
        let p = self@[id].parent.unwrap();
        assert(self.node_ok(id));
        let cs = self.children_of(p);
        assert(cs.contains(id));
        let k = cs.index_of(id);
        assert(self.node_ok(p));
        self.lemma_child_facts(p, k);
    }

    /// Adds a node right before `ref_id` among its siblings; the reference node must have
    /// a parent.
    #[verifier::rlimit(50)]
    #[verifier::spinoff_prover]
    pub fn insert_before(&mut self, ref_id: NodeId, data: T) -> (id: NodeId)
        requires
            old(self).wf(),
            old(self)@.contains_key(ref_id),
            old(self)@[ref_id].parent.is_some(),
            old(self).has_room(),
        ensures
            final(self).wf(),
            id == old(self).next_id(),
            final(self).slot_count() == old(self).slot_count_after_insert(),
            final(self).free_ids() == old(self).free_ids_after_insert(),
            !old(self)@.contains_key(id),
            final(self)@ == (match old(self)@[ref_id].prev_sibling {
                Some(s) => old(self)@.insert(s, with_next_sibling(old(self)@[s], Some(id))),
                None => old(self)@.insert(
                    old(self)@[ref_id].parent.unwrap(),
                    with_first_child(old(self)@[old(self)@[ref_id].parent.unwrap()], Some(id)),
                ),
            }).insert(ref_id, with_prev_sibling(old(self)@[ref_id], Some(id))).insert(
                id,
                Link {
                    current: leaf(data),
                    prev_sibling: old(self)@[ref_id].prev_sibling,
                    next_sibling: Some(ref_id),
                    parent: old(self)@[ref_id].parent,
                },
            ),
            final(self).kids_map() == old(self).kids_map().insert(
                old(self)@[ref_id].parent.unwrap(),
                old(self).children_of(old(self)@[ref_id].parent.unwrap()).insert(
                    old(self).sibling_index(ref_id),
                    id,
                ),
            ).insert(id, Seq::empty()),
            final(self).depth_map() == old(self).depth_map().insert(id, old(self).depth_of(ref_id)),
    {
        let ghost o = *self;
        let new_node_id = self.arena.next_slot_index();
        let ref_link = self.arena.get(ref_id).unwrap();
        let prev = ref_link.prev_sibling;
        let parent = ref_link.parent;
        let parent_id = parent.unwrap();
        proof {
            o.lemma_sibling_index(ref_id);
            let k = o.sibling_index(ref_id);
            if k > 0 {
                o.lemma_child_facts(parent_id, k - 1);
            }
        }
        match prev {
            Some(sibling_id) => {
                let sl = self.arena.get_mut(sibling_id).unwrap();
                sl.next_sibling = Some(new_node_id);
            },
            None => {
                let pl = self.arena.get_mut(parent_id).unwrap();
                pl.current.first_child = Some(new_node_id);
            },
        }
        let rl = self.arena.get_mut(ref_id).unwrap();
        rl.prev_sibling = Some(new_node_id);
        let link = Link {
            current: Node { data, first_child: None, last_child: None },
            prev_sibling: prev,
            next_sibling: Some(ref_id),
            parent,
        };
        let id = self.arena.insert(link);
        proof {
            let cs0 = o.children_of(parent_id);
            let k = o.sibling_index(ref_id);
            let cs = cs0.insert(k, id);
            self.kids@ = self.kids@.insert(parent_id, cs).insert(id, Seq::empty());
            self.depth@ = self.depth@.insert(id, o.depth_of(ref_id));
            assert(o.node_ok(ref_id));
            assert(self@ =~= (match o@[ref_id].prev_sibling {
                Some(s) => o@.insert(s, with_next_sibling(o@[s], Some(id))),
                None => o@.insert(parent_id, with_first_child(o@[parent_id], Some(id))),
            }).insert(ref_id, with_prev_sibling(o@[ref_id], Some(id))).insert(
                id,
                Link {
                    current: leaf(data),
                    prev_sibling: o@[ref_id].prev_sibling,
                    next_sibling: Some(ref_id),
                    parent: o@[ref_id].parent,
                },
            ));
            assert(self.kids@.dom() =~= self.arena@.dom());
            assert(self.depth@.dom() =~= self.arena@.dom());
            assert forall|n: NodeId| #[trigger] self@.contains_key(n) implies self.node_ok(n) by {
                if n == id {
                    assert(cs[k] == id);
                    assert(o.node_ok(parent_id));
                } else if n == parent_id {
                    assert(o.node_ok(parent_id));
                    assert forall|j: int| 0 <= j < cs.len() implies #[trigger] self.child_ok(parent_id, j) by {
                        if j < k {
                            o.lemma_child_facts(parent_id, j);
                            assert(cs[j] == cs0[j]);
                            if j > 0 {
                                assert(cs[j - 1] == cs0[j - 1]);
                            }
                            assert(cs[j + 1] == if j + 1 == k { id } else { cs0[j + 1] });
                        } else if j > k {
                            o.lemma_child_facts(parent_id, j - 1);
                            assert(cs[j] == cs0[j - 1]);
                            assert(cs[j - 1] == if j - 1 == k { id } else { cs0[j - 2] });
                            if j < cs.len() - 1 {
                                assert(cs[j + 1] == cs0[j]);
                            }
                        }
                    }
                    assert(cs.no_duplicates()) by {
                        assert forall|a: int, b: int| 0 <= a < b < cs.len() implies cs[a] != cs[b] by {
                            if a == k {
                                o.lemma_child_facts(parent_id, b - 1);
                            } else if b == k {
                                o.lemma_child_facts(parent_id, a);
                            } else {
                                let a0 = if a < k { a } else { a - 1 };
                                let b0 = if b < k { b } else { b - 1 };
                                assert(cs[a] == cs0[a0] && cs[b] == cs0[b0]);
                            }
                        }
                    }
                    if let Some(p) = o@[parent_id].parent {
                        if p == parent_id {
                            let j = choose|j: int| 0 <= j < cs0.len() && cs0[j] == parent_id;
                            o.lemma_child_facts(parent_id, j);
                        }
                    }
                } else {
                    assert(o.node_ok(n));
                    let cn = self.children_of(n);
                    assert(cn == o.children_of(n));
                    assert forall|j: int| 0 <= j < cn.len() implies #[trigger] self.child_ok(n, j) by {
                        o.lemma_child_facts(n, j);
                        if cn[j] == ref_id || Some(cn[j]) == prev {
                            assert(o@[cn[j]].parent == Some(parent_id));
                        }
                    }
                    match o@[n].parent {
                        Some(p) => {
                            if p == parent_id {
                                assert(cs.contains(n)) by {
                                    let j = choose|j: int| 0 <= j < cs0.len() && cs0[j] == n;
                                    if j < k {
                                        assert(cs[j] == n);
                                    } else {
                                        assert(cs[j + 1] == n);
                                    }
                                }
                            }
                        },
                        None => {
                            if n == ref_id || Some(n) == prev {
                                assert(o@[n].parent == Some(parent_id));
                            }
                        },
                    }
                }
            }
        }
        id
    }

    /// Adds a node right after `ref_id` among its siblings; the reference node must have
    /// a parent.
    #[verifier::rlimit(50)]
    #[verifier::spinoff_prover]
    pub fn insert_after(&mut self, ref_id: NodeId, data: T) -> (id: NodeId)
        requires
            old(self).wf(),
            old(self)@.contains_key(ref_id),
            old(self)@[ref_id].parent.is_some(),
            old(self).has_room(),
        ensures
            final(self).wf(),
            id == old(self).next_id(),
            final(self).slot_count() == old(self).slot_count_after_insert(),
            final(self).free_ids() == old(self).free_ids_after_insert(),
            !old(self)@.contains_key(id),
            final(self)@ == (match old(self)@[ref_id].next_sibling {
                Some(s) => old(self)@.insert(s, with_prev_sibling(old(self)@[s], Some(id))),
                None => old(self)@.insert(
                    old(self)@[ref_id].parent.unwrap(),
                    with_last_child(old(self)@[old(self)@[ref_id].parent.unwrap()], Some(id)),
                ),
            }).insert(ref_id, with_next_sibling(old(self)@[ref_id], Some(id))).insert(
                id,
                Link {
                    current: leaf(data),
                    prev_sibling: Some(ref_id),
                    next_sibling: old(self)@[ref_id].next_sibling,
                    parent: old(self)@[ref_id].parent,
                },
            ),
            final(self).kids_map() == old(self).kids_map().insert(
                old(self)@[ref_id].parent.unwrap(),
                old(self).children_of(old(self)@[ref_id].parent.unwrap()).insert(
                    old(self).sibling_index(ref_id) + 1,
                    id,
                ),
            ).insert(id, Seq::empty()),
            final(self).depth_map() == old(self).depth_map().insert(id, old(self).depth_of(ref_id)),
    {
        let ghost o = *self;
        let new_node_id = self.arena.next_slot_index();
        let ref_link = self.arena.get(ref_id).unwrap();
        let next = ref_link.next_sibling;
        let parent = ref_link.parent;
        let parent_id = parent.unwrap();
        proof {
            o.lemma_sibling_index(ref_id);
            let k = o.sibling_index(ref_id);
            if k < o.children_of(parent_id).len() - 1 {
                o.lemma_child_facts(parent_id, k + 1);
            }
        }
        match next {
            Some(sibling_id) => {
                let sl = self.arena.get_mut(sibling_id).unwrap();
                sl.prev_sibling = Some(new_node_id);
            },
            None => {
                let pl = self.arena.get_mut(parent_id).unwrap();
                pl.current.last_child = Some(new_node_id);
            },
        }
        let rl = self.arena.get_mut(ref_id).unwrap();
        rl.next_sibling = Some(new_node_id);
        let link = Link {
            current: Node { data, first_child: None, last_child: None },
            prev_sibling: Some(ref_id),
            next_sibling: next,
            parent,
        };
        let id = self.arena.insert(link);
        proof {
            let cs0 = o.children_of(parent_id);
            let k = o.sibling_index(ref_id) + 1;
            let cs = cs0.insert(k, id);
            self.kids@ = self.kids@.insert(parent_id, cs).insert(id, Seq::empty());
            self.depth@ = self.depth@.insert(id, o.depth_of(ref_id));
            assert(o.node_ok(ref_id));
            assert(self@ =~= (match o@[ref_id].next_sibling {
                Some(s) => o@.insert(s, with_prev_sibling(o@[s], Some(id))),
                None => o@.insert(parent_id, with_last_child(o@[parent_id], Some(id))),
            }).insert(ref_id, with_next_sibling(o@[ref_id], Some(id))).insert(
                id,
                Link {
                    current: leaf(data),
                    prev_sibling: Some(ref_id),
                    next_sibling: o@[ref_id].next_sibling,
                    parent: o@[ref_id].parent,
                },
            ));
            assert(self.kids@.dom() =~= self.arena@.dom());
            assert(self.depth@.dom() =~= self.arena@.dom());
            assert forall|n: NodeId| #[trigger] self@.contains_key(n) implies self.node_ok(n) by {
                if n == id {
                    assert(cs[k] == id);
                    assert(o.node_ok(parent_id));
                } else if n == parent_id {
                    assert(o.node_ok(parent_id));
                    assert forall|j: int| 0 <= j < cs.len() implies #[trigger] self.child_ok(parent_id, j) by {
                        if j < k {
                            o.lemma_child_facts(parent_id, j);
                            assert(cs[j] == cs0[j]);
                            if j > 0 {
                                assert(cs[j - 1] == cs0[j - 1]);
                            }
                            assert(cs[j + 1] == if j + 1 == k { id } else { cs0[j + 1] });
                        } else if j > k {
                            o.lemma_child_facts(parent_id, j - 1);
                            assert(cs[j] == cs0[j - 1]);
                            assert(cs[j - 1] == if j - 1 == k { id } else { cs0[j - 2] });
                            if j < cs.len() - 1 {
                                assert(cs[j + 1] == cs0[j]);
                            }
                        }
                    }
                    assert(cs.no_duplicates()) by {
                        assert forall|a: int, b: int| 0 <= a < b < cs.len() implies cs[a] != cs[b] by {
                            if a == k {
                                o.lemma_child_facts(parent_id, b - 1);
                            } else if b == k {
                                o.lemma_child_facts(parent_id, a);
                            } else {
                                let a0 = if a < k { a } else { a - 1 };
                                let b0 = if b < k { b } else { b - 1 };
                                assert(cs[a] == cs0[a0] && cs[b] == cs0[b0]);
                            }
                        }
                    }
                    if let Some(p) = o@[parent_id].parent {
                        if p == parent_id {
                            let j = choose|j: int| 0 <= j < cs0.len() && cs0[j] == parent_id;
                            o.lemma_child_facts(parent_id, j);
                        }
                    }
                } else {
                    assert(o.node_ok(n));
                    let cn = self.children_of(n);
                    assert(cn == o.children_of(n));
                    assert forall|j: int| 0 <= j < cn.len() implies #[trigger] self.child_ok(n, j) by {
                        o.lemma_child_facts(n, j);
                        if cn[j] == ref_id || Some(cn[j]) == next {
                            assert(o@[cn[j]].parent == Some(parent_id));
                        }
                    }
                    match o@[n].parent {
                        Some(p) => {
                            if p == parent_id {
                                assert(cs.contains(n)) by {
                                    let j = choose|j: int| 0 <= j < cs0.len() && cs0[j] == n;
                                    if j < k {
                                        assert(cs[j] == n);
                                    } else {
                                        assert(cs[j + 1] == n);
                                    }
                                }
                            }
                        },
                        None => {
                            if n == ref_id || Some(n) == next {
                                assert(o@[n].parent == Some(parent_id));
                            }
                        },
                    }
                }
            }
        }
        id
    }

    /// The link of `id`, open to change; the other links stay as they are. Changing the
    /// places a link records can break the tree's shape.
    pub fn index_mut(&mut self, id: NodeId) -> (l: &mut Link<T>)
        requires
            old(self).wf(),
            old(self)@.contains_key(id),
        ensures
            *l == old(self)@[id],
            final(self)@ == old(self)@.insert(id, *final(l)),
            final(self).kids_map() == old(self).kids_map(),
            final(self).depth_map() == old(self).depth_map(),
            final(self).height() == old(self).height(),
            final(self).free_ids() == old(self).free_ids(),
            final(self).slot_count() == old(self).slot_count(),
    {
        self.arena.index_mut(id)
    }

    /// The links of `ids`, in that order, each open to change; the other links stay as
    /// they are. Changing the places a link records can break the tree's shape.
    pub fn links_mut(&mut self, ids: Vec<NodeId>) -> (r: Vec<(NodeId, &mut Link<T>)>)
        requires
            old(self).wf(),
            ids@.no_duplicates(),
            forall|i: int| 0 <= i < ids.len() ==> old(self)@.contains_key(#[trigger] ids@[i]),
        ensures
            r@.len() == ids@.len(),
            forall|i: int| 0 <= i < r@.len() ==> (#[trigger] r@[i]).0 == ids@[i] && *r@[i].1 == old(self)@[ids@[i]],
            final(self)@.dom() == old(self)@.dom(),
            forall|i: int| 0 <= i < r@.len() ==> final(self)@[ids@[i]] == *final((#[trigger] r@[i]).1),
            forall|n: NodeId| old(self)@.contains_key(n) && !ids@.contains(n) ==> #[trigger] final(self)@[n] == old(self)@[n],
            final(self).kids_map() == old(self).kids_map(),
            final(self).depth_map() == old(self).depth_map(),
            final(self).height() == old(self).height(),
            final(self).free_ids() == old(self).free_ids(),
            final(self).slot_count() == old(self).slot_count(),
    {
        self.arena.get_many_mut(ids)
    }

    /// Takes a removed node's link out of its sibling list: its neighbours point at each
    /// other and its parent's first and last child are updated.
    fn detach_link(&mut self, link: &Link<T>)
        requires
            old(self).arena.wf(),
            link.prev_sibling matches Some(p) ==> old(self).arena@.contains_key(p),
            link.next_sibling matches Some(n) ==> old(self).arena@.contains_key(n),
            link.parent matches Some(q) ==> old(self).arena@.contains_key(q),
        ensures
            final(self).arena.wf(),
            final(self).arena@ == unlinked(old(self).arena@, *link),
            final(self).arena.slot_count() == old(self).arena.slot_count(),
            final(self).arena.free_seq() == old(self).arena.free_seq(),
            final(self).kids == old(self).kids,
            final(self).depth == old(self).depth,
            final(self).height == old(self).height,
    {
        self.unlink_parts(link.prev_sibling, link.next_sibling, link.parent);
    }

    fn unlink_parts(&mut self, prev: Option<NodeId>, next: Option<NodeId>, parent: Option<NodeId>)
        requires
            old(self).arena.wf(),
            prev matches Some(p) ==> old(self).arena@.contains_key(p),
            next matches Some(n) ==> old(self).arena@.contains_key(n),
            parent matches Some(q) ==> old(self).arena@.contains_key(q),
        ensures
            final(self).arena.wf(),
            final(self).arena@ == unlinked_parts(old(self).arena@, prev, next, parent),
            final(self).arena.slot_count() == old(self).arena.slot_count(),
            final(self).arena.free_seq() == old(self).arena.free_seq(),
            final(self).kids == old(self).kids,
            final(self).depth == old(self).depth,
            final(self).height == old(self).height,
    {
        match (prev, next) {
            (Some(prev_sibling_id), Some(next_sibling_id)) => {
                let nl = self.arena.get_mut(next_sibling_id).unwrap();
                nl.prev_sibling = Some(prev_sibling_id);
                let pl = self.arena.get_mut(prev_sibling_id).unwrap();
                pl.next_sibling = Some(next_sibling_id);
            },
            (Some(prev_sibling_id), None) => {
                if let Some(parent_id) = parent {
                    let ql = self.arena.get_mut(parent_id).unwrap();
                    ql.current.last_child = Some(prev_sibling_id);
                }
                let pl = self.arena.get_mut(prev_sibling_id).unwrap();
                pl.next_sibling = None;
            },
            (None, Some(next_sibling_id)) => {
                if let Some(parent_id) = parent {
                    let ql = self.arena.get_mut(parent_id).unwrap();
                    ql.current.first_child = Some(next_sibling_id);
                }
                let nl = self.arena.get_mut(next_sibling_id).unwrap();
                nl.prev_sibling = None;
            },
            (None, None) => {
                if let Some(parent_id) = parent {
                    let ql = self.arena.get_mut(parent_id).unwrap();
                    ql.current.first_child = None;
                    ql.current.last_child = None;
                }
            },
        }
        proof {
            assert(self.arena@ =~= unlinked_parts(old(self).arena@, prev, next, parent));
        }
    }

    /// `x` is `r` or lies below it.
    pub open spec fn in_subtree(&self, x: NodeId, r: NodeId) -> bool {
        x == r || self.is_descendant(x, r)
    }

    /// The nodes of the subtree rooted at `r`.
    pub open spec fn subtree_set(&self, r: NodeId) -> Set<NodeId> {
        Set::new(|x: NodeId| self.in_subtree(x, r))
    }

    /// The children lists after the subtree of `r` was detached.
    pub open spec fn kids_after_detach(&self, r: NodeId) -> Map<NodeId, Seq<NodeId>> {
        match self@[r].parent {
            Some(p) => self.kids_map().remove_keys(self.subtree_set(r)).insert(
                p,
                self.children_of(p).remove(self.sibling_index(r)),
            ),
            None => self.kids_map().remove_keys(self.subtree_set(r)),
        }
    }

    /// The neighbours and the parent of `r` lie outside its subtree.
    #[verifier::rlimit(80)]
    #[verifier::spinoff_prover]
    proof fn lemma_neighbours_outside(&self, r: NodeId)
        requires
            self.wf(),
            self@.contains_key(r),
        ensures
            self@[r].prev_sibling matches Some(p) ==> self@.contains_key(p) && !self.in_subtree(
                p,
                r,
            ),
            self@[r].next_sibling matches Some(n) ==> self@.contains_key(n) && !self.in_subtree(
                n,
                r,
            ),
            self@[r].parent matches Some(q) ==> self@.contains_key(q) && !self.in_subtree(q, r),
    {
        assert(self.node_ok(r));
        if let Some(q) = self@[r].parent {
            self.lemma_sibling_index(r);
            let k = self.sibling_index(r);
            let cs = self.children_of(q);
            assert(self.node_ok(q));
            if self.is_descendant(q, r) {
                self.lemma_descendant_deeper(q, r);
            }
            if k > 0 {
                self.lemma_child_facts(q, k - 1);
                let p = cs[k - 1];
                if self.is_descendant(p, r) {
                    self.lemma_descendant_deeper(p, r);
                }
            }
            if k < cs.len() - 1 {
                self.lemma_child_facts(q, k + 1);
                let n = cs[k + 1];
                if self.is_descendant(n, r) {
                    self.lemma_descendant_deeper(n, r);
                }
            }
        }
    }

    /// Removing a whole subtree and unlinking its root keeps the tree well formed.
    #[verifier::rlimit(80)]
    #[verifier::spinoff_prover]
    proof fn lemma_detach_ok(o: Self, t: Self, r: NodeId)
        requires
            o.wf(),
            o@.contains_key(r),
            t.arena.wf(),
            t@ == unlinked(o@.remove_keys(o.subtree_set(r)), o@[r]),
            t.kids@ == o.kids_after_detach(r),
            t.depth@ == o.depth@.remove_keys(o.subtree_set(r)),
            t.height@ == o.height@,
        ensures
            t.wf(),
    {
        let sset = o.subtree_set(r);
        let lr = o@[r];
        o.lemma_neighbours_outside(r);
        assert(o.node_ok(r));
        assert(t.kids@.dom() =~= t.arena@.dom());
        assert(t.depth@.dom() =~= t.arena@.dom());
        // kids of remaining nodes stay outside the subtree, save r itself
        assert forall|n: NodeId, c: NodeId|
            o@.contains_key(n) && !sset.contains(n) && #[trigger] o.children_of(n).contains(c)
                && sset.contains(c) implies c == r by {
            let k = choose|k: int| 0 <= k < o.children_of(n).len() && o.children_of(n)[k] == c;
            o.lemma_child_facts(n, k);
            if c != r {
                o.lemma_descendant_deeper(c, r);
                assert(o@[c].parent == Some(n));
                if n != r {
                    assert(sset.contains(n));
                }
            }
        }
        assert forall|n: NodeId| #[trigger] t@.contains_key(n) implies t.node_ok(n) by {
            Self::lemma_detach_node_ok(o, t, r, n);
        }
    }

    #[verifier::rlimit(80)]
    #[verifier::spinoff_prover]
    proof fn lemma_detach_node_ok(o: Self, t: Self, r: NodeId, n: NodeId)
        requires
            o.wf(),
            o@.contains_key(r),
            t.arena.wf(),
            t@ == unlinked(o@.remove_keys(o.subtree_set(r)), o@[r]),
            t.kids@ == o.kids_after_detach(r),
            t.depth@ == o.depth@.remove_keys(o.subtree_set(r)),
            t.height@ == o.height@,
            t@.contains_key(n),
            forall|n: NodeId, c: NodeId|
                o@.contains_key(n) && !o.subtree_set(r).contains(n) && #[trigger] o.children_of(n).contains(c)
                    && o.subtree_set(r).contains(c) ==> c == r,
        ensures
            t.node_ok(n),
    {
        if o@[r].parent == Some(n) {
            Self::lemma_detach_parent_ok(o, t, r, n);
        } else {
            Self::lemma_detach_other_ok(o, t, r, n);
        }
    }

    #[verifier::rlimit(80)]
    #[verifier::spinoff_prover]
    proof fn lemma_detach_parent_ok(o: Self, t: Self, r: NodeId, n: NodeId)
        requires
            o.wf(),
            o@.contains_key(r),
            t.arena.wf(),
            t@ == unlinked(o@.remove_keys(o.subtree_set(r)), o@[r]),
            t.kids@ == o.kids_after_detach(r),
            t.depth@ == o.depth@.remove_keys(o.subtree_set(r)),
            t.height@ == o.height@,
            t@.contains_key(n),
            o@[r].parent == Some(n),
            forall|n: NodeId, c: NodeId|
                o@.contains_key(n) && !o.subtree_set(r).contains(n) && #[trigger] o.children_of(n).contains(c)
                    && o.subtree_set(r).contains(c) ==> c == r,
        ensures
            t.node_ok(n),
    {
        let sset = o.subtree_set(r);
        let lr = o@[r];
        o.lemma_neighbours_outside(r);
        assert(o.node_ok(r));
            assert(o@.contains_key(n) && !sset.contains(n));
        assert(o.node_ok(n));
        let is_parent = lr.parent == Some(n);
        let cs = o.children_of(n);
        o.lemma_sibling_index(r);
        let k = o.sibling_index(r);
        let cs2 = cs.remove(k);
        assert(t.children_of(n) == cs2);
        assert forall|j: int| 0 <= j < cs2.len() implies #[trigger] t.child_ok(n, j) by {
            let j0 = if j < k { j } else { j + 1 };
            o.lemma_child_facts(n, j0);
            assert(cs2[j] == cs[j0]);
            let c = cs[j0];
            assert(c != r);
            if sset.contains(c) {
                assert(o.children_of(n).contains(c));
            }
            if j > 0 {
                let jp = if j - 1 < k { j - 1 } else { j };
                assert(cs2[j - 1] == cs[jp]);
            }
            if j < cs2.len() - 1 {
                let jn = if j + 1 < k { j + 1 } else { j + 2 };
                assert(cs2[j + 1] == cs[jn]);
            }
            if j0 == k - 1 {
                o.lemma_child_facts(n, k);
            }
            if j0 == k + 1 {
                o.lemma_child_facts(n, k);
            }
        }
        assert(cs2.no_duplicates()) by {
            assert forall|a: int, b: int| 0 <= a < b < cs2.len() implies cs2[a] != cs2[b] by {
                let a0 = if a < k { a } else { a + 1 };
                let b0 = if b < k { b } else { b + 1 };
                assert(cs2[a] == cs[a0] && cs2[b] == cs[b0]);
            }
        }
        if k > 0 {
            o.lemma_child_facts(n, k - 1);
        }
        if k < cs.len() - 1 {
            o.lemma_child_facts(n, k + 1);
        }
        o.lemma_child_facts(n, k);
        match o@[n].parent {
            Some(q) => {
                assert(o@.contains_key(q));
                if sset.contains(q) {
                    o.lemma_descendant_step(n, r);
                    assert(o.is_descendant(n, r));
                    assert(sset.contains(n));
                }
                assert(q != n) by {
                    if q == n {
                        let i = choose|i: int| 0 <= i < o.children_of(n).len() && o.children_of(n)[i] == n;
                        o.lemma_child_facts(n, i);
                    }
                }
            },
            None => {},
        }
    }

    #[verifier::rlimit(80)]
    #[verifier::spinoff_prover]
    proof fn lemma_detach_other_ok(o: Self, t: Self, r: NodeId, n: NodeId)
        requires
            o.wf(),
            o@.contains_key(r),
            t.arena.wf(),
            t@ == unlinked(o@.remove_keys(o.subtree_set(r)), o@[r]),
            t.kids@ == o.kids_after_detach(r),
            t.depth@ == o.depth@.remove_keys(o.subtree_set(r)),
            t.height@ == o.height@,
            t@.contains_key(n),
            o@[r].parent != Some(n),
            forall|n: NodeId, c: NodeId|
                o@.contains_key(n) && !o.subtree_set(r).contains(n) && #[trigger] o.children_of(n).contains(c)
                    && o.subtree_set(r).contains(c) ==> c == r,
        ensures
            t.node_ok(n),
    {
        let sset = o.subtree_set(r);
        let lr = o@[r];
        o.lemma_neighbours_outside(r);
        assert(o.node_ok(r));
            assert(o@.contains_key(n) && !sset.contains(n));
        assert(o.node_ok(n));
        let is_parent = lr.parent == Some(n);
        let cs = o.children_of(n);
        assert(t.children_of(n) == cs);
        assert forall|j: int| 0 <= j < cs.len() implies #[trigger] t.child_ok(n, j) by {
            o.lemma_child_facts(n, j);
            let c = cs[j];
            if sset.contains(c) {
                assert(cs.contains(c));
            }
            if Some(c) == lr.prev_sibling || Some(c) == lr.next_sibling {
                o.lemma_sibling_index(r);
                let k = o.sibling_index(r);
                let q = lr.parent.unwrap();
                if Some(c) == lr.prev_sibling {
                    o.lemma_child_facts(q, k - 1);
                } else {
                    o.lemma_child_facts(q, k + 1);
                }
            }
        }
        match o@[n].parent {
            Some(q) => {
                if sset.contains(q) {
                    o.lemma_descendant_step(n, r);
                    assert(sset.contains(n));
                }
                if lr.parent == Some(q) {
                    o.lemma_sibling_index(r);
                    let k = o.sibling_index(r);
                    let cq = o.children_of(q);
                    let i = choose|i: int| 0 <= i < cq.len() && cq[i] == n;
                    assert(n != r);
                    if i < k {
                        assert(cq.remove(k)[i] == n);
                    } else {
                        assert(i != k);
                        assert(cq.remove(k)[i - 1] == n);
                    }
                }
            },
            None => {
                if Some(n) == lr.prev_sibling || Some(n) == lr.next_sibling {
                    o.lemma_sibling_index(r);
                    let k = o.sibling_index(r);
                    let q = lr.parent.unwrap();
                    if Some(n) == lr.prev_sibling {
                        o.lemma_child_facts(q, k - 1);
                    } else {
                        o.lemma_child_facts(q, k + 1);
                    }
                }
            },
        }

    }

    /// Removes the subtree rooted at `target_id` and hands out its nodes, each after its
    /// children, the root last. The root's neighbours and parent are linked past it.
    #[verifier::spinoff_prover]
    pub fn detach_subtree(&mut self, target_id: NodeId) -> (r: Vec<(NodeId, Link<T>)>)
        requires
            old(self).wf(),
            old(self)@.contains_key(target_id),
        ensures
            final(self).wf(),
            r@.map_values(|e: (NodeId, Link<T>)| e.0) == old(self).post_order(target_id).push(
                target_id,
            ),
            forall|k: int| 0 <= k < r@.len() ==> (#[trigger] r@[k]).1 == old(self)@[r@[k].0],
            final(self)@ == unlinked(
                old(self)@.remove_keys(old(self).subtree_set(target_id)),
                old(self)@[target_id],
            ),
            final(self).kids_map() == old(self).kids_after_detach(target_id),
            final(self).depth_map() == old(self).depth_map().remove_keys(
                old(self).subtree_set(target_id),
            ),
            final(self).slot_count() <= old(self).slot_count(),
    {
        let ghost o = *self;
        let mut ids: Vec<NodeId> = Vec::new();
        {
            let order = self.post_ordered_descendants(target_id);
            let mut k: usize = 0;
            while k < order.len()
                invariant
                    k <= order@.len(),
                    ids@ == ids_of(order@).subrange(0, k as int),
                decreases order@.len() - k,
            {
                ids.push(order[k].0);
                k = k + 1;
                proof {
                    assert(ids@ =~= ids_of(order@).subrange(0, k as int));
                }
            }
            proof {
                assert(ids@ =~= ids_of(order@));
            }
        }
        proof {
            o.lemma_order_members(target_id);
        }
        let ghost post = o.post_order(target_id);
        let mut r: Vec<(NodeId, Link<T>)> = Vec::new();
        let mut k: usize = 0;
        while k < ids.len()
            invariant
                ids@ == post,
                post == o.post_order(target_id),
                post.no_duplicates(),
                forall|y: NodeId| #![trigger post.contains(y)] post.contains(y) ==> o@.contains_key(y),
                k <= ids@.len(),
                self.arena.wf(),
                self.arena.slot_count() <= o.arena.slot_count(),
                self.arena@ == o@.remove_keys(ids@.subrange(0, k as int).to_set()),
                self.kids == o.kids,
                self.depth == o.depth,
                self.height == o.height,
                r@.map_values(|e: (NodeId, Link<T>)| e.0) == ids@.subrange(0, k as int),
                forall|m: int| 0 <= m < r@.len() ==> (#[trigger] r@[m]).1 == o@[r@[m].0],
            decreases ids@.len() - k,
        {
            let id = ids[k];
            proof {
                assert(post.contains(id));
                assert(!ids@.subrange(0, k as int).to_set().contains(id)) by {
                    if ids@.subrange(0, k as int).contains(id) {
                        let m = choose|m: int| 0 <= m < k && ids@.subrange(0, k as int)[m] == id;
                        assert(ids@[m] == ids@[k as int]);
                    }
                }
            }
            let ghost arena_before = self.arena@;
            let link = self.arena.remove(id);
            let ghost before = r@;
            r.push((id, link));
            let ghost k0 = k as int;
            k = k + 1;
            proof {
                let s0 = ids@.subrange(0, k0).to_set();
                assert(ids@.subrange(0, k as int) =~= ids@.subrange(0, k0).push(id));
                assert forall|x: NodeId| #[trigger] ids@.subrange(0, k as int).to_set().contains(x)
                    == s0.insert(id).contains(x) by {
                    let a = ids@.subrange(0, k as int);
                    let b = ids@.subrange(0, k0);
                    if a.contains(x) && x != id {
                        let m = choose|m: int| 0 <= m < a.len() && a[m] == x;
                        assert(b[m] == x);
                    }
                    if b.contains(x) {
                        let m = choose|m: int| 0 <= m < b.len() && b[m] == x;
                        assert(a[m] == x);
                    }
                    if x == id {
                        assert(a[k0] == id);
                    }
                }
                assert(ids@.subrange(0, k as int).to_set() =~= s0.insert(id));
                assert(self.arena@ =~= o@.remove_keys(s0.insert(id)));
                assert(r@.map_values(|e: (NodeId, Link<T>)| e.0) =~= before.map_values(
                    |e: (NodeId, Link<T>)| e.0,
                ).push(id));
            }
        }
        proof {
            assert(ids@.subrange(0, ids@.len() as int) =~= ids@);
            if post.contains(target_id) {
                o.lemma_descendant_deeper(target_id, target_id);
            }
        }
        let link = self.arena.remove(target_id);
        proof {
            o.lemma_neighbours_outside(target_id);
            let sset = o.subtree_set(target_id);
            assert(self.arena@ =~= o@.remove_keys(sset)) by {
                assert forall|x: NodeId| #[trigger] sset.contains(x) == (x == target_id || post.to_set().contains(x)) by {
                    assert(post.to_set().contains(x) == post.contains(x));
                }
            }
        }
        self.detach_link(&link);
        r.push((target_id, link));
        proof {
            self.kids@ = o.kids_after_detach(target_id);
            self.depth@ = o.depth@.remove_keys(o.subtree_set(target_id));
            Self::lemma_detach_ok(o, *self, target_id);
            assert(r@.map_values(|e: (NodeId, Link<T>)| e.0) =~= post.push(target_id));
        }
        r
    }

    /// The depths after the subtree of `r` moved `delta` levels.
    pub open spec fn shifted_depths(&self, r: NodeId, delta: int) -> Map<NodeId, nat> {
        Map::new(
            |x: NodeId| self@.contains_key(x),
            |x: NodeId|
                if self.in_subtree(x, r) {
                    (self.depth_of(x) + delta) as nat
                } else {
                    self.depth_of(x)
                },
        )
    }

    /// The children lists after `r` was taken out of its parent's list.
    pub open spec fn kids_after_uproot(&self, r: NodeId) -> Map<NodeId, Seq<NodeId>> {
        match self@[r].parent {
            Some(p) => self.kids_map().insert(p, self.children_of(p).remove(self.sibling_index(r))),
            None => self.kids_map(),
        }
    }

    /// Facts shared by the uprooting proofs.
    #[verifier::rlimit(80)]
    #[verifier::spinoff_prover]
    proof fn lemma_uproot_facts(o: Self, r: NodeId)
        requires
            o.wf(),
            o@.contains_key(r),
        ensures
            forall|x: NodeId| #[trigger] o.in_subtree(x, r) && o@.contains_key(x) ==> o.depth_of(x) >= o.depth_of(r),
            forall|n: NodeId, c: NodeId|
                o@.contains_key(n) && #[trigger] o.children_of(n).contains(c) && o.in_subtree(n, r)
                    ==> o.in_subtree(c, r),
            forall|n: NodeId, c: NodeId|
                o@.contains_key(n) && !o.in_subtree(n, r) && #[trigger] o.children_of(n).contains(c)
                    && o.in_subtree(c, r) ==> c == r,
    {
        assert forall|x: NodeId| #[trigger] o.in_subtree(x, r) && o@.contains_key(x) implies o.depth_of(x) >= o.depth_of(r) by {
            if x != r {
                o.lemma_descendant_deeper(x, r);
            }
        }
        assert forall|n: NodeId, c: NodeId|
            o@.contains_key(n) && #[trigger] o.children_of(n).contains(c) && o.in_subtree(n, r)
                implies o.in_subtree(c, r) by {
            let k = choose|k: int| 0 <= k < o.children_of(n).len() && o.children_of(n)[k] == c;
            o.lemma_child_facts(n, k);
            o.lemma_descendant_step(c, r);
        }
        assert forall|n: NodeId, c: NodeId|
            o@.contains_key(n) && !o.in_subtree(n, r) && #[trigger] o.children_of(n).contains(c)
                && o.in_subtree(c, r) implies c == r by {
            let k = choose|k: int| 0 <= k < o.children_of(n).len() && o.children_of(n)[k] == c;
            o.lemma_child_facts(n, k);
            if c != r {
                o.lemma_descendant_deeper(c, r);
            }
        }
    }

    #[verifier::rlimit(80)]
    #[verifier::spinoff_prover]
    proof fn lemma_uproot_node_ok(o: Self, t: Self, r: NodeId, n: NodeId)
        requires
            o.wf(),
            o@.contains_key(r),
            t.arena.wf(),
            t@ == uprooted(o@, r),
            t.kids@ == o.kids_after_uproot(r),
            t.depth@ == o.shifted_depths(r, -o.depth_of(r)),
            t.height@ == o.height@,
            t@.contains_key(n),
            t.kids@.dom() == t.arena@.dom(),
            t.depth@.dom() == t.arena@.dom(),
        ensures
            t.node_ok(n),
    {
        let lr = o@[r];
        o.lemma_neighbours_outside(r);
        Self::lemma_uproot_facts(o, r);
        assert(o.node_ok(r));
        assert(o.node_ok(n));
        if n == r {
            let cs = o.children_of(r);
            assert forall|j: int| 0 <= j < cs.len() implies #[trigger] t.child_ok(r, j) by {
                o.lemma_child_facts(r, j);
                let c = cs[j];
                assert(cs.contains(c));
                if lr.parent.is_some() {
                    let q = lr.parent.unwrap();
                    o.lemma_sibling_index(r);
                    let k = o.sibling_index(r);
                    if k > 0 {
                        o.lemma_child_facts(q, k - 1);
                    }
                    if k < o.children_of(q).len() - 1 {
                        o.lemma_child_facts(q, k + 1);
                    }
                    assert(o.depth_of(q) < o.depth_of(r));
                }
            }
        } else if lr.parent == Some(n) {
            Self::lemma_uproot_parent_ok(o, t, r, n);
        } else if o.in_subtree(n, r) {
            Self::lemma_uproot_inner_ok(o, t, r, n);
        } else {
            Self::lemma_uproot_outer_ok(o, t, r, n);
        }
    }

    #[verifier::rlimit(80)]
    #[verifier::spinoff_prover]
    proof fn lemma_uproot_parent_ok(o: Self, t: Self, r: NodeId, n: NodeId)
        requires
            o.wf(),
            o@.contains_key(r),
            t.arena.wf(),
            t@ == uprooted(o@, r),
            t.kids@ == o.kids_after_uproot(r),
            t.depth@ == o.shifted_depths(r, -o.depth_of(r)),
            t.height@ == o.height@,
            t.kids@.dom() == t.arena@.dom(),
            t.depth@.dom() == t.arena@.dom(),
            o@[r].parent == Some(n),
        ensures
            t.node_ok(n),
    {
        let lr = o@[r];
        o.lemma_neighbours_outside(r);
        Self::lemma_uproot_facts(o, r);
        assert(o.node_ok(r));
        assert(o.node_ok(n));
        let cs = o.children_of(n);
        o.lemma_sibling_index(r);
        let k = o.sibling_index(r);
        let cs2 = cs.remove(k);
        assert(t.children_of(n) == cs2);
        assert forall|j: int| 0 <= j < cs2.len() implies #[trigger] t.child_ok(n, j) by {
            let j0 = if j < k { j } else { j + 1 };
            o.lemma_child_facts(n, j0);
            assert(cs2[j] == cs[j0]);
            let c = cs[j0];
            assert(c != r);
            assert(cs.contains(c));
            if j > 0 {
                let jp = if j - 1 < k { j - 1 } else { j };
                assert(cs2[j - 1] == cs[jp]);
            }
            if j < cs2.len() - 1 {
                let jn = if j + 1 < k { j + 1 } else { j + 2 };
                assert(cs2[j + 1] == cs[jn]);
            }
            if j0 == k - 1 {
                o.lemma_child_facts(n, k);
            }
            if j0 == k + 1 {
                o.lemma_child_facts(n, k);
            }
        }
        assert(cs2.no_duplicates()) by {
            assert forall|a: int, b: int| 0 <= a < b < cs2.len() implies cs2[a] != cs2[b] by {
                let a0 = if a < k { a } else { a + 1 };
                let b0 = if b < k { b } else { b + 1 };
                assert(cs2[a] == cs[a0] && cs2[b] == cs[b0]);
            }
        }
        if k > 0 {
            o.lemma_child_facts(n, k - 1);
        }
        if k < cs.len() - 1 {
            o.lemma_child_facts(n, k + 1);
        }
        o.lemma_child_facts(n, k);
        if let Some(q) = o@[n].parent {
            assert(q != n) by {
                if q == n {
                    let i = choose|i: int| 0 <= i < o.children_of(n).len() && o.children_of(n)[i] == n;
                    o.lemma_child_facts(n, i);
                }
            }
        }
    }

    #[verifier::rlimit(80)]
    #[verifier::spinoff_prover]
    proof fn lemma_uproot_inner_ok(o: Self, t: Self, r: NodeId, n: NodeId)
        requires
            o.wf(),
            o@.contains_key(r),
            t.arena.wf(),
            t@ == uprooted(o@, r),
            t.kids@ == o.kids_after_uproot(r),
            t.depth@ == o.shifted_depths(r, -o.depth_of(r)),
            t.height@ == o.height@,
            t.kids@.dom() == t.arena@.dom(),
            t.depth@.dom() == t.arena@.dom(),
            o@.contains_key(n),
            n != r,
            o.in_subtree(n, r),
            o@[r].parent != Some(n),
        ensures
            t.node_ok(n),
    {
        let lr = o@[r];
        o.lemma_neighbours_outside(r);
        Self::lemma_uproot_facts(o, r);
        assert(o.node_ok(n));
        let cs = o.children_of(n);
        assert(t.children_of(n) == cs);
        assert forall|j: int| 0 <= j < cs.len() implies #[trigger] t.child_ok(n, j) by {
            o.lemma_child_facts(n, j);
            assert(cs.contains(cs[j]));
        }
        o.lemma_descendant_deeper(n, r);
        let q = o@[n].parent.unwrap();
        assert(o.in_subtree(q, r));
    }

    #[verifier::rlimit(80)]
    #[verifier::spinoff_prover]
    proof fn lemma_uproot_outer_ok(o: Self, t: Self, r: NodeId, n: NodeId)
        requires
            o.wf(),
            o@.contains_key(r),
            t.arena.wf(),
            t@ == uprooted(o@, r),
            t.kids@ == o.kids_after_uproot(r),
            t.depth@ == o.shifted_depths(r, -o.depth_of(r)),
            t.height@ == o.height@,
            t.kids@.dom() == t.arena@.dom(),
            t.depth@.dom() == t.arena@.dom(),
            o@.contains_key(n),
            !o.in_subtree(n, r),
            o@[r].parent != Some(n),
        ensures
            t.node_ok(n),
    {
        let lr = o@[r];
        o.lemma_neighbours_outside(r);
        Self::lemma_uproot_facts(o, r);
        assert(o.node_ok(n));
        let cs = o.children_of(n);
        assert(t.children_of(n) == cs);
        assert forall|j: int| 0 <= j < cs.len() implies #[trigger] t.child_ok(n, j) by {
            o.lemma_child_facts(n, j);
            let c = cs[j];
            assert(cs.contains(c));
            if Some(c) == lr.prev_sibling || Some(c) == lr.next_sibling {
                o.lemma_sibling_index(r);
                let k = o.sibling_index(r);
                let q = lr.parent.unwrap();
                if Some(c) == lr.prev_sibling {
                    o.lemma_child_facts(q, k - 1);
                } else {
                    o.lemma_child_facts(q, k + 1);
                }
            }
        }
        match o@[n].parent {
            Some(q) => {
                if o.in_subtree(q, r) {
                    o.lemma_parent_is_ancestor(n);
                    o.lemma_descendant_step(n, r);
                }
                if lr.parent == Some(q) {
                    o.lemma_sibling_index(r);
                    let k = o.sibling_index(r);
                    let cq = o.children_of(q);
                    let i = choose|i: int| 0 <= i < cq.len() && cq[i] == n;
                    if i < k {
                        assert(cq.remove(k)[i] == n);
                    } else {
                        assert(i != k);
                        assert(cq.remove(k)[i - 1] == n);
                    }
                }
            },
            None => {
                if Some(n) == lr.prev_sibling || Some(n) == lr.next_sibling {
                    o.lemma_sibling_index(r);
                    let k = o.sibling_index(r);
                    let q = lr.parent.unwrap();
                    if Some(n) == lr.prev_sibling {
                        o.lemma_child_facts(q, k - 1);
                    } else {
                        o.lemma_child_facts(q, k + 1);
                    }
                }
            },
        }
    }

    /// Takes `target` out of its sibling list and makes it a root; its subtree stays below it.
    #[verifier::spinoff_prover]
    fn uproot(&mut self, target: NodeId)
        requires
            old(self).wf(),
            old(self)@.contains_key(target),
        ensures
            final(self).wf(),
            final(self)@ == uprooted(old(self)@, target),
            final(self).kids_map() == old(self).kids_after_uproot(target),
            final(self).free_ids() == old(self).free_ids(),
            final(self).slot_count() == old(self).slot_count(),
    {
        let ghost o = *self;
        let l = self.arena.get(target).unwrap();
        let prev = l.prev_sibling;
        let next = l.next_sibling;
        let parent = l.parent;
        proof {
            o.lemma_neighbours_outside(target);
        }
        self.unlink_parts(prev, next, parent);
        let tl = self.arena.get_mut(target).unwrap();
        tl.prev_sibling = None;
        tl.next_sibling = None;
        tl.parent = None;
        proof {
            assert(self.arena@ =~= uprooted(o@, target));
            self.kids@ = o.kids_after_uproot(target);
            self.depth@ = o.shifted_depths(target, -o.depth_of(target));
            assert(self.kids@.dom() =~= self.arena@.dom());
            assert(self.depth@.dom() =~= self.arena@.dom());
            let t = *self;
            assert forall|n: NodeId| #[trigger] t@.contains_key(n) implies t.node_ok(n) by {
                Self::lemma_uproot_node_ok(o, t, target, n);
            }
        }
    }

    /// The children lists after the root `r` was put at position `k` among the children
    /// of `p`.
    pub open spec fn kids_after_place(&self, r: NodeId, p: NodeId, k: int) -> Map<NodeId, Seq<NodeId>> {
        self.kids_map().insert(p, self.children_of(p).insert(k, r))
    }

    /// The neighbours that a node put at position `k` among the children of `p` gets.
    pub open spec fn slot_neighbours(&self, p: NodeId, k: int) -> (Option<NodeId>, Option<NodeId>) {
        let cs = self.children_of(p);
        (
            if k > 0 { Some(cs[k - 1]) } else { None },
            if k < cs.len() { Some(cs[k]) } else { None },
        )
    }

    /// Facts shared by the placing proofs.
    #[verifier::rlimit(80)]
    #[verifier::spinoff_prover]
    proof fn lemma_place_facts(o: Self, r: NodeId, p: NodeId, k: int)
        requires
            o.wf(),
            o@.contains_key(r),
            o@.contains_key(p),
            o@[r].parent.is_none(),
            !o.in_subtree(p, r),
            0 <= k <= o.children_of(p).len(),
        ensures
            !o.children_of(p).contains(r),
            !o.children_of(p).contains(p),
            forall|j: int| 0 <= j < o.children_of(p).len() ==> {
                let c = #[trigger] o.children_of(p)[j];
                &&& o@.contains_key(c)
                &&& !o.in_subtree(c, r)
                &&& o.child_ok(p, j)
            },
            forall|n: NodeId, c: NodeId| #[trigger] o.children_of(n).contains(c) && o@.contains_key(n) ==> c != r,
            forall|x: NodeId| o.in_subtree(x, r) && x != r && #[trigger] o@.contains_key(x)
                ==> o@[x].parent.is_some() && o.in_subtree(o@[x].parent.unwrap(), r),
    {
        let cs = o.children_of(p);
        assert(o.node_ok(p));
        assert forall|j: int| 0 <= j < cs.len() implies {
            let c = #[trigger] o.children_of(p)[j];
            &&& o@.contains_key(c)
            &&& !o.in_subtree(c, r)
            &&& o.child_ok(p, j)
        } by {
            o.lemma_child_facts(p, j);
            let c = cs[j];
            if c == r {
            } else if o.is_descendant(c, r) {
                o.lemma_descendant_deeper(c, r);
            }
        }
        if cs.contains(r) {
            let j = choose|j: int| 0 <= j < cs.len() && cs[j] == r;
            o.lemma_child_facts(p, j);
        }
        if cs.contains(p) {
            let j = choose|j: int| 0 <= j < cs.len() && cs[j] == p;
            o.lemma_child_facts(p, j);
        }
        assert forall|n: NodeId, c: NodeId| #[trigger] o.children_of(n).contains(c) && o@.contains_key(n) implies c != r by {
            let j = choose|j: int| 0 <= j < o.children_of(n).len() && o.children_of(n)[j] == c;
            o.lemma_child_facts(n, j);
        }
        assert forall|x: NodeId| o.in_subtree(x, r) && x != r && #[trigger] o@.contains_key(x)
            implies o@[x].parent.is_some() && o.in_subtree(o@[x].parent.unwrap(), r) by {
            o.lemma_descendant_deeper(x, r);
        }
    }

    proof fn lemma_place_node_ok(o: Self, t: Self, r: NodeId, p: NodeId, k: int, n: NodeId)
        requires
            o.wf(),
            o@.contains_key(r),
            o@.contains_key(p),
            o@[r].parent.is_none(),
            !o.in_subtree(p, r),
            0 <= k <= o.children_of(p).len(),
            t.arena.wf(),
            t@ == placed(o@, r, p, o.slot_neighbours(p, k).0, o.slot_neighbours(p, k).1),
            t.kids@ == o.kids_after_place(r, p, k),
            t.depth@ == o.shifted_depths(r, (o.depth_of(p) + 1) as int),
            t.height@ == o.height@ + o.depth_of(p) + 1,
            t.kids@.dom() == t.arena@.dom(),
            t.depth@.dom() == t.arena@.dom(),
            t@.contains_key(n),
        ensures
            t.node_ok(n),
    {
        if n == r {
            Self::lemma_place_root_ok(o, t, r, p, k, n);
        } else if n == p {
            Self::lemma_place_parent_ok(o, t, r, p, k, n);
        } else if o.in_subtree(n, r) {
            Self::lemma_place_inner_ok(o, t, r, p, k, n);
        } else {
            Self::lemma_place_outer_ok(o, t, r, p, k, n);
        }
    }

    #[verifier::rlimit(80)]
    #[verifier::spinoff_prover]
    proof fn lemma_place_root_ok(o: Self, t: Self, r: NodeId, p: NodeId, k: int, n: NodeId)
        requires
            o.wf(),
            o@.contains_key(r),
            o@.contains_key(p),
            o@[r].parent.is_none(),
            !o.in_subtree(p, r),
            0 <= k <= o.children_of(p).len(),
            t.arena.wf(),
            t@ == placed(o@, r, p, o.slot_neighbours(p, k).0, o.slot_neighbours(p, k).1),
            t.kids@ == o.kids_after_place(r, p, k),
            t.depth@ == o.shifted_depths(r, (o.depth_of(p) + 1) as int),
            t.height@ == o.height@ + o.depth_of(p) + 1,
            t.kids@.dom() == t.arena@.dom(),
            t.depth@.dom() == t.arena@.dom(),
            t@.contains_key(n),
            n == r,
        ensures
            t.node_ok(n),
    {
        Self::lemma_place_facts(o, r, p, k);
        Self::lemma_uproot_facts(o, r);
        let cs = o.children_of(p);
        let prev = o.slot_neighbours(p, k).0;
        let next = o.slot_neighbours(p, k).1;
        assert(o.node_ok(n));
        assert(o.node_ok(r));
        assert(o.node_ok(p));
        assert(o.depth_of(r) == 0);
        let cr = o.children_of(r);
        assert(t.children_of(r) == cr);
        assert forall|j: int| 0 <= j < cr.len() implies #[trigger] t.child_ok(r, j) by {
            o.lemma_child_facts(r, j);
            let c = cr[j];
            assert(cr.contains(c));
            assert(o.in_subtree(c, r));
            assert(c != p);
            if Some(c) == prev {
                assert(cs[k - 1] == c);
            }
            if Some(c) == next {
                assert(cs[k] == c);
            }
        }
        assert(t.children_of(p).contains(r)) by {
            assert(t.children_of(p)[k] == r);
        }
    }

    #[verifier::rlimit(40)]
    #[verifier::spinoff_prover]
    proof fn lemma_place_parent_child(o: Self, t: Self, r: NodeId, p: NodeId, k: int, j: int)
        requires
            o.wf(),
            o@.contains_key(r),
            o@.contains_key(p),
            o@[r].parent.is_none(),
            !o.in_subtree(p, r),
            0 <= k <= o.children_of(p).len(),
            t.arena.wf(),
            t@ == placed(o@, r, p, o.slot_neighbours(p, k).0, o.slot_neighbours(p, k).1),
            t.kids@ == o.kids_after_place(r, p, k),
            t.depth@ == o.shifted_depths(r, (o.depth_of(p) + 1) as int),
            t.height@ == o.height@ + o.depth_of(p) + 1,
            t.kids@.dom() == t.arena@.dom(),
            t.depth@.dom() == t.arena@.dom(),
            0 <= j <= o.children_of(p).len(),
        ensures
            t.child_ok(p, j),
    {
        Self::lemma_place_facts(o, r, p, k);
        let cs = o.children_of(p);
        let cs2 = cs.insert(k, r);
        assert(t.children_of(p) == cs2);
        assert(o.node_ok(r));
        assert(o.node_ok(p));
        if j == k {
            assert(cs2[k] == r);
            if k > 0 {
                assert(cs2[k - 1] == cs[k - 1]);
            }
            if k < cs.len() {
                assert(cs2[k + 1] == cs[k]);
            }
        } else {
            let j0 = if j < k { j } else { j - 1 };
            assert(cs2[j] == cs[j0]);
            o.lemma_child_facts(p, j0);
            assert(cs[j0] != r);
            if j > 0 {
                if j - 1 == k {
                    assert(cs2[j - 1] == r);
                } else {
                    let jp = if j - 1 < k { j - 1 } else { j - 2 };
                    assert(cs2[j - 1] == cs[jp]);
                }
            }
            if j < cs2.len() - 1 {
                if j + 1 == k {
                    assert(cs2[j + 1] == r);
                } else {
                    let jn = if j + 1 < k { j + 1 } else { j };
                    assert(cs2[j + 1] == cs[jn]);
                }
            }
            if k > 0 && j0 != k - 1 {
                o.lemma_child_facts(p, k - 1);
            }
            if k < cs.len() && j0 != k {
                o.lemma_child_facts(p, k);
            }
        }
    }

    #[verifier::rlimit(80)]
    #[verifier::spinoff_prover]
    proof fn lemma_place_parent_ok(o: Self, t: Self, r: NodeId, p: NodeId, k: int, n: NodeId)
        requires
            o.wf(),
            o@.contains_key(r),
            o@.contains_key(p),
            o@[r].parent.is_none(),
            !o.in_subtree(p, r),
            0 <= k <= o.children_of(p).len(),
            t.arena.wf(),
            t@ == placed(o@, r, p, o.slot_neighbours(p, k).0, o.slot_neighbours(p, k).1),
            t.kids@ == o.kids_after_place(r, p, k),
            t.depth@ == o.shifted_depths(r, (o.depth_of(p) + 1) as int),
            t.height@ == o.height@ + o.depth_of(p) + 1,
            t.kids@.dom() == t.arena@.dom(),
            t.depth@.dom() == t.arena@.dom(),
            t@.contains_key(n),
            n == p,
        ensures
            t.node_ok(n),
    {
        Self::lemma_place_facts(o, r, p, k);
        Self::lemma_uproot_facts(o, r);
        let cs = o.children_of(p);
        let prev = o.slot_neighbours(p, k).0;
        let next = o.slot_neighbours(p, k).1;
        assert(o.node_ok(n));
        assert(o.node_ok(r));
        assert(o.node_ok(p));
        assert(o.depth_of(r) == 0);
        let cs2 = cs.insert(k, r);
        assert(t.children_of(p) == cs2);
        assert forall|j: int| 0 <= j < cs2.len() implies #[trigger] t.child_ok(p, j) by {
            Self::lemma_place_parent_child(o, t, r, p, k, j);
        }
        assert(cs2.no_duplicates()) by {
            assert forall|a: int, b: int| 0 <= a < b < cs2.len() implies cs2[a] != cs2[b] by {
                if a != k && b != k {
                    let a0 = if a < k { a } else { a - 1 };
                    let b0 = if b < k { b } else { b - 1 };
                    assert(cs2[a] == cs[a0] && cs2[b] == cs[b0]);
                } else if a == k {
                    let b0 = b - 1;
                    assert(cs2[b] == cs[b0]);
                    assert(cs.contains(cs[b0]));
                } else {
                    assert(cs2[a] == cs[a]);
                    assert(cs.contains(cs[a]));
                }
            }
        }
        if k > 0 {
            assert(cs2[0] == cs[0]);
        }
        if k < cs.len() {
            assert(cs2.last() == cs.last());
        }
        if let Some(q) = o@[p].parent {
            assert(q != p) by {
                if q == p {
                    let i = choose|i: int| 0 <= i < o.children_of(p).len() && o.children_of(p)[i] == p;
                    o.lemma_child_facts(p, i);
                }
            }
        }
    }

    #[verifier::rlimit(80)]
    #[verifier::spinoff_prover]
    proof fn lemma_place_inner_ok(o: Self, t: Self, r: NodeId, p: NodeId, k: int, n: NodeId)
        requires
            o.wf(),
            o@.contains_key(r),
            o@.contains_key(p),
            o@[r].parent.is_none(),
            !o.in_subtree(p, r),
            0 <= k <= o.children_of(p).len(),
            t.arena.wf(),
            t@ == placed(o@, r, p, o.slot_neighbours(p, k).0, o.slot_neighbours(p, k).1),
            t.kids@ == o.kids_after_place(r, p, k),
            t.depth@ == o.shifted_depths(r, (o.depth_of(p) + 1) as int),
            t.height@ == o.height@ + o.depth_of(p) + 1,
            t.kids@.dom() == t.arena@.dom(),
            t.depth@.dom() == t.arena@.dom(),
            t@.contains_key(n),
            n != r,
            n != p,
            o.in_subtree(n, r),
        ensures
            t.node_ok(n),
    {
        Self::lemma_place_facts(o, r, p, k);
        Self::lemma_uproot_facts(o, r);
        let cs = o.children_of(p);
        let prev = o.slot_neighbours(p, k).0;
        let next = o.slot_neighbours(p, k).1;
        assert(o.node_ok(n));
        assert(o.node_ok(r));
        assert(o.node_ok(p));
        assert(o.depth_of(r) == 0);
        let cn = o.children_of(n);
        assert(t.children_of(n) == cn);
        assert(n != p);
        assert(Some(n) != prev && Some(n) != next);
        assert forall|j: int| 0 <= j < cn.len() implies #[trigger] t.child_ok(n, j) by {
            o.lemma_child_facts(n, j);
            let c = cn[j];
            assert(cn.contains(c));
            assert(o.in_subtree(c, r));
            assert(c != p);
            assert(c != r);
            if Some(c) == prev {
                assert(cs[k - 1] == c);
            }
            if Some(c) == next {
                assert(cs[k] == c);
            }
        }
        let q = o@[n].parent.unwrap();
        assert(o.in_subtree(q, r));
        assert(q != p);
    }

    #[verifier::rlimit(80)]
    #[verifier::spinoff_prover]
    proof fn lemma_place_outer_ok(o: Self, t: Self, r: NodeId, p: NodeId, k: int, n: NodeId)
        requires
            o.wf(),
            o@.contains_key(r),
            o@.contains_key(p),
            o@[r].parent.is_none(),
            !o.in_subtree(p, r),
            0 <= k <= o.children_of(p).len(),
            t.arena.wf(),
            t@ == placed(o@, r, p, o.slot_neighbours(p, k).0, o.slot_neighbours(p, k).1),
            t.kids@ == o.kids_after_place(r, p, k),
            t.depth@ == o.shifted_depths(r, (o.depth_of(p) + 1) as int),
            t.height@ == o.height@ + o.depth_of(p) + 1,
            t.kids@.dom() == t.arena@.dom(),
            t.depth@.dom() == t.arena@.dom(),
            t@.contains_key(n),
            n != r,
            n != p,
            !o.in_subtree(n, r),
        ensures
            t.node_ok(n),
    {
        Self::lemma_place_facts(o, r, p, k);
        Self::lemma_uproot_facts(o, r);
        let cs = o.children_of(p);
        let prev = o.slot_neighbours(p, k).0;
        let next = o.slot_neighbours(p, k).1;
        assert(o.node_ok(n));
        assert(o.node_ok(r));
        assert(o.node_ok(p));
        assert(o.depth_of(r) == 0);
        let cn = o.children_of(n);
        assert(t.children_of(n) == cn);
        assert forall|j: int| 0 <= j < cn.len() implies #[trigger] t.child_ok(n, j) by {
            o.lemma_child_facts(n, j);
            let c = cn[j];
            assert(cn.contains(c));
            assert(c != r);
            assert(!o.in_subtree(c, r));
            if Some(c) == prev {
                o.lemma_child_facts(p, k - 1);
            }
            if Some(c) == next {
                o.lemma_child_facts(p, k);
            }
        }
        if Some(n) == prev {
            o.lemma_child_facts(p, k - 1);
        }
        if Some(n) == next {
            o.lemma_child_facts(p, k);
        }
        if let Some(q) = o@[n].parent {
            if q == p {
                let i = choose|i: int| 0 <= i < cs.len() && cs[i] == n;
                if i < k {
                    assert(cs.insert(k, r)[i] == n);
                } else {
                    assert(cs.insert(k, r)[i + 1] == n);
                }
            }
        }
    }

    /// Puts the root `target` at position `k` among the children of `parent`, between the
    /// neighbours `prev` and `next` that this position has.
    #[verifier::spinoff_prover]
    fn place(&mut self, target: NodeId, parent: NodeId, prev: Option<NodeId>, next: Option<NodeId>, Ghost(k): Ghost<int>)
        requires
            old(self).wf(),
            old(self)@.contains_key(target),
            old(self)@.contains_key(parent),
            old(self)@[target].parent.is_none(),
            !old(self).in_subtree(parent, target),
            0 <= k <= old(self).children_of(parent).len(),
            prev == old(self).slot_neighbours(parent, k).0,
            next == old(self).slot_neighbours(parent, k).1,
        ensures
            final(self).wf(),
            final(self)@ == placed(old(self)@, target, parent, prev, next),
            final(self).kids_map() == old(self).kids_after_place(target, parent, k),
            final(self).free_ids() == old(self).free_ids(),
            final(self).slot_count() == old(self).slot_count(),
    {
        let ghost o = *self;
        proof {
            Self::lemma_place_facts(o, target, parent, k);
            assert(o.node_ok(target));
        }
        match prev {
            Some(p) => {
                let pl = self.arena.get_mut(p).unwrap();
                pl.next_sibling = Some(target);
            },
            None => {
                let ql = self.arena.get_mut(parent).unwrap();
                ql.current.first_child = Some(target);
            },
        }
        match next {
            Some(n) => {
                let nl = self.arena.get_mut(n).unwrap();
                nl.prev_sibling = Some(target);
            },
            None => {
                let ql = self.arena.get_mut(parent).unwrap();
                ql.current.last_child = Some(target);
            },
        }
        let tl = self.arena.get_mut(target).unwrap();
        tl.prev_sibling = prev;
        tl.next_sibling = next;
        tl.parent = Some(parent);
        proof {
            assert(self.arena@ =~= placed(o@, target, parent, prev, next));
            self.kids@ = o.kids_after_place(target, parent, k);
            self.depth@ = o.shifted_depths(target, (o.depth_of(parent) + 1) as int);
            self.height@ = o.height@ + o.depth_of(parent) + 1;
            assert(self.kids@.dom() =~= self.arena@.dom());
            assert(self.depth@.dom() =~= self.arena@.dom());
            let t = *self;
            assert forall|n: NodeId| #[trigger] t@.contains_key(n) implies t.node_ok(n) by {
                Self::lemma_place_node_ok(o, t, target, parent, k, n);
            }
        }
    }

    /// Uprooting `r` gives it no new descendants.
    proof fn lemma_uproot_descendants(o: Self, t: Self, r: NodeId, x: NodeId)
        requires
            o.wf(),
            t.wf(),
            o@.contains_key(r),
            t@ == uprooted(o@, r),
            t@.contains_key(x),
            t.is_descendant(x, r),
        ensures
            o.is_descendant(x, r),
        decreases t.depth_of(x),
    {
        t.lemma_descendant_deeper(x, r);
        t.lemma_ancestors(x);
        o.lemma_neighbours_outside(r);
        assert(t@.dom() =~= o@.dom());
        let q = t@[x].parent.unwrap();
        assert(x != r);
        assert(o@[x].parent == t@[x].parent);
        if q == r {
            o.lemma_descendant_step(x, r);
        } else {
            Self::lemma_uproot_descendants(o, t, r, q);
            o.lemma_descendant_step(x, r);
        }
    }

    /// The children lists after `target` moved to position `k` among the children of
    /// `parent`, `k` counting the siblings other than `target`.
    pub open spec fn kids_after_move(&self, target: NodeId, parent: NodeId, k: int) -> Map<NodeId, Seq<NodeId>> {
        let m = self.kids_after_uproot(target);
        m.insert(parent, m[parent].insert(k, target))
    }

    /// A move takes the subtree along: the moved node keeps its children, and so does
    /// every node other than its old and its new parent.
    pub proof fn law_move_keeps_children(&self, target: NodeId, parent: NodeId, k: int)
        requires
            self.wf(),
            self@.contains_key(target),
            self@.contains_key(parent),
            target != parent,
        ensures
            self.kids_after_move(target, parent, k)[target] == self.children_of(target),
            forall|n: NodeId|
                #![trigger self.kids_after_move(target, parent, k)[n]]
                self@.contains_key(n) && n != parent && self@[target].parent != Some(n)
                    ==> self.kids_after_move(target, parent, k)[n] == self.children_of(n),
    {
        assert(self.node_ok(target));
        if let Some(p) = self@[target].parent {
            assert(self.node_ok(p));
            let i = self.children_of(p).index_of(target);
            assert(self.child_ok(p, i));
            assert(p != target);
        }
    }

    /// Whether `target_id` may be moved next to or under `ref_id`: the two differ and
    /// `target_id` is not an ancestor of `ref_id`.
    pub fn is_valid_move(&self, target_id: NodeId, ref_id: NodeId) -> (b: bool)
        requires
            self.wf(),
            self@.contains_key(target_id),
            self@.contains_key(ref_id),
        ensures
            b == (target_id != ref_id && !self.is_descendant(ref_id, target_id)),
    {
        if target_id == ref_id {
            return false;
        }
        let ancestors = self.ancestors(ref_id);
        let mut i: usize = 0;
        while i < ancestors.len()
            invariant
                0 <= i <= ancestors.len(),
                ids_of(ancestors@) == self.ancestors_of(ref_id),
                self@.contains_key(ref_id),
                target_id != ref_id,
                forall|j: int| 0 <= j < i ==> ancestors@[j].0 != target_id,
            decreases ancestors.len() - i,
        {
            if ancestors[i].0 == target_id {
                proof {
                    assert(self.ancestors_of(ref_id)[i as int] == target_id);
                    assert(self.ancestors_of(ref_id).contains(target_id));
                }
                return false;
            }
            i = i + 1;
        }
        proof {
            assert forall|j: int| 0 <= j < self.ancestors_of(ref_id).len() implies self.ancestors_of(ref_id)[j] != target_id by {
                assert(self.ancestors_of(ref_id)[j] == ancestors@[j].0);
            }
        }
        true
    }

    /// Starts moving `target_id` to another place in the tree.
    pub fn move_position(&mut self, target_id: NodeId) -> (m: MovePosition<'_, T>)
        ensures
            *m.tree == *old(self),
            m.target_id == target_id,
            *final(self) == *final(m.tree),
    {
        MovePosition { tree: self, target_id }
    }

    /// A node and its ancestors are distinct nodes of the tree, so a depth is always less
    /// than the number of nodes.
    #[verifier::spinoff_prover]
    pub proof fn lemma_depth_bound(&self, n: NodeId)
        requires
            self.wf(),
            self@.contains_key(n),
        ensures
            self.depth_of(n) < self@.len(),
            self@.len() <= isize::MAX,
    {
        self.arena.lemma_size_bound();
        self.lemma_ancestors(n);
        let a = self.ancestors_of(n).push(n);
        assert forall|i: int, j: int| 0 <= i < a.len() && 0 <= j < a.len() && i != j implies a[i] != a[j] by {
            if i < a.len() - 1 && j < a.len() - 1 {
                assert(self.depth_of(a[i]) != self.depth_of(a[j]));
            } else if i < a.len() - 1 {
                assert(self.depth_of(a[i]) < self.depth_of(n));
            } else {
                assert(self.depth_of(a[j]) < self.depth_of(n));
            }
        }
        assert(a.no_duplicates());
        a.unique_seq_to_set();
        assert(a.to_set().subset_of(self@.dom())) by {
            assert forall|x: NodeId| a.to_set().contains(x) implies self@.dom().contains(x) by {
                let i = choose|i: int| 0 <= i < a.len() && a[i] == x;
                if i < a.len() - 1 {
                    assert(self.ancestors_of(n)[i] == x);
                }
            }
        }
        vstd::set_lib::lemma_len_subset(a.to_set(), self@.dom());
    }
}

/// A node of a tree on its way to a new place; each method puts it there and returns its
/// id, which stays the same. The node is moved in place, with its subtree; the reference
/// node may lie anywhere outside that subtree, whatever its ancestors.
pub struct MovePosition<'a, T> {
    pub tree: &'a mut Tree<T>,
    pub target_id: NodeId,
}

impl<'a, T> MovePosition<'a, T> {
    /// Makes the target the last child of `parent_id`; its subtree moves with it.
    pub fn append_child(self, parent_id: NodeId) -> (id: NodeId)
        requires
            self.tree.wf(),
            self.tree@.contains_key(self.target_id),
            self.tree@.contains_key(parent_id),
            self.target_id != parent_id,
            !self.tree.is_descendant(parent_id, self.target_id),
        ensures
            id == self.target_id,
            final(self.tree).wf(),
            final(self.tree).kids_map() == old(self.tree).kids_after_move(
                id,
                parent_id,
                old(self.tree).kids_after_uproot(id)[parent_id].len() as int,
            ),
            final(self.tree)@ == placed(
                uprooted(old(self.tree)@, id),
                id,
                parent_id,
                uprooted(old(self.tree)@, id)[parent_id].current.last_child,
                None,
            ),
            final(self.tree).free_ids() == old(self.tree).free_ids(),
            final(self.tree).slot_count() == old(self.tree).slot_count(),
    {
        let target = self.target_id;
        let tree = self.tree;
        let ghost o = *tree;
        tree.uproot(target);
        let ghost t = *tree;
        proof {
            if t.is_descendant(parent_id, target) {
                Tree::lemma_uproot_descendants(o, t, target, parent_id);
            }
            assert(t.node_ok(parent_id));
        }
        let prev = tree.index(parent_id).current.last_child;
        tree.place(target, parent_id, prev, None, Ghost(t.children_of(parent_id).len() as int));
        target
    }

    /// Makes the target the first child of `parent_id`; its subtree moves with it.
    pub fn prepend_child(self, parent_id: NodeId) -> (id: NodeId)
        requires
            self.tree.wf(),
            self.tree@.contains_key(self.target_id),
            self.tree@.contains_key(parent_id),
            self.target_id != parent_id,
            !self.tree.is_descendant(parent_id, self.target_id),
        ensures
            id == self.target_id,
            final(self.tree).wf(),
            final(self.tree).kids_map() == old(self.tree).kids_after_move(id, parent_id, 0),
            final(self.tree)@ == placed(
                uprooted(old(self.tree)@, id),
                id,
                parent_id,
                None,
                uprooted(old(self.tree)@, id)[parent_id].current.first_child,
            ),
            final(self.tree).free_ids() == old(self.tree).free_ids(),
            final(self.tree).slot_count() == old(self.tree).slot_count(),
    {
        let target = self.target_id;
        let tree = self.tree;
        let ghost o = *tree;
        tree.uproot(target);
        let ghost t = *tree;
        proof {
            if t.is_descendant(parent_id, target) {
                Tree::lemma_uproot_descendants(o, t, target, parent_id);
            }
            assert(t.node_ok(parent_id));
        }
        let next = tree.index(parent_id).current.first_child;
        tree.place(target, parent_id, None, next, Ghost(0));
        target
    }

    /// Puts the target right before `ref_id` among its siblings; its subtree moves with it.
    pub fn insert_before(self, ref_id: NodeId) -> (id: NodeId)
        requires
            self.tree.wf(),
            self.tree@.contains_key(self.target_id),
            self.tree@.contains_key(ref_id),
            self.tree@[ref_id].parent.is_some(),
            self.target_id != ref_id,
            !self.tree.is_descendant(ref_id, self.target_id),
        ensures
            id == self.target_id,
            final(self.tree).wf(),
            final(self.tree).kids_map() == old(self.tree).kids_after_move(
                id,
                old(self.tree)@[ref_id].parent.unwrap(),
                old(self.tree).kids_after_uproot(id)[old(self.tree)@[ref_id].parent.unwrap()].index_of(ref_id),
            ),
            final(self.tree)@ == placed(
                uprooted(old(self.tree)@, id),
                id,
                old(self.tree)@[ref_id].parent.unwrap(),
                uprooted(old(self.tree)@, id)[ref_id].prev_sibling,
                Some(ref_id),
            ),
            final(self.tree).free_ids() == old(self.tree).free_ids(),
            final(self.tree).slot_count() == old(self.tree).slot_count(),
    {
        let target = self.target_id;
        let tree = self.tree;
        let ghost o = *tree;
        tree.uproot(target);
        let ghost t = *tree;
        let link = tree.index(ref_id);
        let parent_id = link.parent.unwrap();
        let prev = link.prev_sibling;
        proof {
            Self::lemma_moved_parent(o, t, target, ref_id);
            t.lemma_sibling_index(ref_id);
        }
        tree.place(target, parent_id, prev, Some(ref_id), Ghost(t.sibling_index(ref_id)));
        target
    }

    /// Puts the target right after `ref_id` among its siblings; its subtree moves with it.
    pub fn insert_after(self, ref_id: NodeId) -> (id: NodeId)
        requires
            self.tree.wf(),
            self.tree@.contains_key(self.target_id),
            self.tree@.contains_key(ref_id),
            self.tree@[ref_id].parent.is_some(),
            self.target_id != ref_id,
            !self.tree.is_descendant(ref_id, self.target_id),
        ensures
            id == self.target_id,
            final(self.tree).wf(),
            final(self.tree).kids_map() == old(self.tree).kids_after_move(
                id,
                old(self.tree)@[ref_id].parent.unwrap(),
                old(self.tree).kids_after_uproot(id)[old(self.tree)@[ref_id].parent.unwrap()].index_of(ref_id) + 1,
            ),
            final(self.tree)@ == placed(
                uprooted(old(self.tree)@, id),
                id,
                old(self.tree)@[ref_id].parent.unwrap(),
                Some(ref_id),
                uprooted(old(self.tree)@, id)[ref_id].next_sibling,
            ),
            final(self.tree).free_ids() == old(self.tree).free_ids(),
            final(self.tree).slot_count() == old(self.tree).slot_count(),
    {
        let target = self.target_id;
        let tree = self.tree;
        let ghost o = *tree;
        tree.uproot(target);
        let ghost t = *tree;
        let link = tree.index(ref_id);
        let parent_id = link.parent.unwrap();
        let next = link.next_sibling;
        proof {
            Self::lemma_moved_parent(o, t, target, ref_id);
            t.lemma_sibling_index(ref_id);
        }
        tree.place(target, parent_id, Some(ref_id), next, Ghost(t.sibling_index(ref_id) + 1));
        target
    }

    /// After `target` was uprooted, the parent of a node outside its subtree keeps its
    /// place and lies outside that subtree.
    proof fn lemma_moved_parent(o: Tree<T>, t: Tree<T>, target: NodeId, ref_id: NodeId)
        requires
            o.wf(),
            t.wf(),
            o@.contains_key(target),
            o@.contains_key(ref_id),
            o@[ref_id].parent.is_some(),
            target != ref_id,
            !o.is_descendant(ref_id, target),
            t@ == uprooted(o@, target),
            t.kids_map() == o.kids_after_uproot(target),
        ensures
            t@.contains_key(ref_id),
            t@[ref_id].parent == o@[ref_id].parent,
            t@.contains_key(o@[ref_id].parent.unwrap()),
            !t.in_subtree(o@[ref_id].parent.unwrap(), target),
            t.sibling_index(ref_id) == o.kids_after_uproot(target)[o@[ref_id].parent.unwrap()].index_of(ref_id),
    {
        o.lemma_neighbours_outside(target);
        assert(t@.dom() =~= o@.dom());
        let q = o@[ref_id].parent.unwrap();
        assert(o.node_ok(ref_id));
        if q == target {
            o.lemma_descendant_step(ref_id, target);
        }
        if t.is_descendant(q, target) {
            Tree::lemma_uproot_descendants(o, t, target, q);
            o.lemma_descendant_step(ref_id, target);
        }
    }
}

} // verus!
