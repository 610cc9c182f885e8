use vstd::prelude::*;

use crate::id::{Id, IdPath};

verus! {

/// A node of an id tree: its id, the data stored at it, and the positions of its children.
#[derive(Debug)]
pub struct Node<T> {
    id: Id,
    data: Option<T>,
    children: Vec<usize>,
}

/// What a node holds, its children as positions in the arena.
pub struct NodeView<T> {
    pub id: Id,
    pub data: Option<T>,
    pub children: Seq<usize>,
}

impl<T> View for Node<T> {
    type V = NodeView<T>;

    closed spec fn view(&self) -> NodeView<T> {
        NodeView { id: self.id, data: self.data, children: self.children@ }
    }
}

impl<T> Node<T> {
    pub fn id(&self) -> (id: Id)
        ensures
            id == self@.id,
    {
        self.id
    }

    pub fn data(&self) -> (d: Option<&T>)
        ensures
            d is Some <==> self@.data is Some,
            d matches Some(x) ==> self@.data == Some(*x),
    {
        match &self.data {
            Some(x) => Some(x),
            None => None,
        }
    }
}

/// The first of the positions `cs` whose node has id `id`.
pub open spec fn child_with_id<T>(nodes: Seq<NodeView<T>>, cs: Seq<usize>, id: Id) -> Option<usize>
    decreases cs.len(),
{
    if cs.len() == 0 {
        None
    } else if nodes[cs[0] as int].id == id {
        Some(cs[0])
    } else {
        child_with_id(nodes, cs.drop_first(), id)
    }
}

/// The node that `path` leads to from `key`, following at each step the first child with
/// the next id.
pub open spec fn find<T>(nodes: Seq<NodeView<T>>, key: int, path: Seq<Id>) -> Option<int>
    decreases path.len(),
{
    if path.len() == 0 {
        Some(key)
    } else {
        match child_with_id(nodes, nodes[key].children, path[0]) {
            Some(c) => find(nodes, c as int, path.drop_first()),
            None => None,
        }
    }
}

/// The nodes once `path` below `key` exists, each missing node added at the end of the
/// arena without data and as the last child of its parent; and the node `path` leads to.
pub open spec fn grown<T>(nodes: Seq<NodeView<T>>, key: int, path: Seq<Id>) -> (Seq<NodeView<T>>, int)
    decreases path.len(),
{
    if path.len() == 0 {
        (nodes, key)
    } else {
        match child_with_id(nodes, nodes[key].children, path[0]) {
            Some(c) => grown(nodes, c as int, path.drop_first()),
            None => {
                let n = nodes.len() as int;
                let nodes2 = nodes.update(
                    key,
                    NodeView { children: nodes[key].children.push(n as usize), ..nodes[key] },
                ).push(NodeView { id: path[0], data: None, children: Seq::empty() });
                grown(nodes2, n, path.drop_first())
            },
        }
    }
}

/// The number of nodes that hold data.
pub open spec fn data_count<T>(nodes: Seq<NodeView<T>>) -> nat
    decreases nodes.len(),
{
    if nodes.len() == 0 {
        0
    } else {
        data_count(nodes.drop_last()) + if nodes.last().data is Some {
            1nat
        } else {
            0nat
        }
    }
}

/// The root is first and has the root's id; every child comes after its parent.
pub open spec fn nodes_wf<T>(nodes: Seq<NodeView<T>>) -> bool {
    &&& nodes.len() >= 1
    &&& nodes[0].id@ == 1
    &&& forall|k: int, j: int|
        0 <= k < nodes.len() && 0 <= j < nodes[k].children.len() ==> k < #[trigger] nodes[k].children[j]
            < nodes.len()
}

/// `g` keeps every node of `nodes` with its id, and its children as a prefix.
pub open spec fn keeps_shape<T>(g: Seq<NodeView<T>>, nodes: Seq<NodeView<T>>) -> bool {
    &&& nodes.len() <= g.len()
    &&& forall|i: int|
        0 <= i < nodes.len() ==> #[trigger] g[i].id == nodes[i].id && nodes[i].children.is_prefix_of(
            g[i].children,
        )
}

/// The nodes in the subtrees below `frontier`, level by level, each level in order;
/// `fuel` bounds the number of levels.
pub open spec fn levels<T>(nodes: Seq<NodeView<T>>, frontier: Seq<usize>, fuel: nat) -> Seq<usize>
    decreases fuel,
{
    if fuel == 0 || frontier.len() == 0 {
        Seq::empty()
    } else {
        frontier + levels(nodes, next_level(nodes, frontier), (fuel - 1) as nat)
    }
}

/// The children of the nodes of `frontier`, in order.
pub open spec fn next_level<T>(nodes: Seq<NodeView<T>>, frontier: Seq<usize>) -> Seq<usize>
    decreases frontier.len(),
{
    if frontier.len() == 0 {
        Seq::empty()
    } else {
        next_level(nodes, frontier.drop_last()) + nodes[frontier.last() as int].children
    }
}

pub proof fn lemma_child_with_id<T>(nodes: Seq<NodeView<T>>, cs: Seq<usize>, id: Id)
    ensures
        child_with_id(nodes, cs, id) matches Some(c) ==> cs.contains(c) && nodes[c as int].id == id,
        child_with_id(nodes, cs, id) is None ==> forall|j: int| 0 <= j < cs.len() ==> nodes[#[trigger] cs[j] as int].id != id,
    decreases cs.len(),
{
    if cs.len() > 0 {
        lemma_child_with_id(nodes, cs.drop_first(), id);
        if let Some(c) = child_with_id(nodes, cs, id) {
            if nodes[cs[0] as int].id != id {
                let j = choose|j: int| 0 <= j < cs.drop_first().len() && cs.drop_first()[j] == c;
                assert(cs[j + 1] == c);
            } else {
                assert(cs[0] == c);
            }
        } else {
            assert forall|j: int| 0 <= j < cs.len() implies nodes[#[trigger] cs[j] as int].id != id by {
                if j > 0 {
                    assert(cs[j] == cs.drop_first()[j - 1]);
                }
            }
        }
    }
}

/// Looking for an id among children gives the same answer in a larger arena with the same
/// ids, and among a longer list that starts with the same children, as long as it was
/// found.
pub proof fn lemma_child_with_id_kept<T>(
    g: Seq<NodeView<T>>,
    nodes: Seq<NodeView<T>>,
    cs: Seq<usize>,
    cs2: Seq<usize>,
    id: Id,
)
    requires
        keeps_shape(g, nodes),
        cs.is_prefix_of(cs2),
        forall|j: int| 0 <= j < cs.len() ==> 0 <= #[trigger] cs[j] < nodes.len(),
    ensures
        child_with_id(nodes, cs, id) is Some ==> child_with_id(g, cs2, id) == child_with_id(nodes, cs, id),
        child_with_id(nodes, cs, id) is None && cs2 == cs ==> child_with_id(g, cs2, id) is None,
    decreases cs.len(),
{
    if cs.len() > 0 {
        assert(cs2[0] == cs[0]);
        assert(g[cs[0] as int].id == nodes[cs[0] as int].id);
        assert(cs.drop_first().is_prefix_of(cs2.drop_first())) by {
            assert forall|j: int| 0 <= j < cs.drop_first().len() implies cs.drop_first()[j] == cs2.drop_first()[j] by {
                assert(cs[j + 1] == cs2[j + 1]);
            }
        }
        assert forall|j: int| 0 <= j < cs.drop_first().len() implies 0 <= #[trigger] cs.drop_first()[j] < nodes.len() by {
            assert(cs.drop_first()[j] == cs[j + 1]);
        }
        lemma_child_with_id_kept(g, nodes, cs.drop_first(), cs2.drop_first(), id);
    }
}

/// A path that leads somewhere keeps leading there in an arena that keeps the shape.
pub proof fn lemma_find_kept<T>(g: Seq<NodeView<T>>, nodes: Seq<NodeView<T>>, key: int, path: Seq<Id>)
    requires
        nodes_wf(nodes),
        keeps_shape(g, nodes),
        0 <= key < nodes.len(),
        find(nodes, key, path) is Some,
    ensures
        find(g, key, path) == find(nodes, key, path),
    decreases path.len(),
{
    if path.len() > 0 {
        let cs = nodes[key].children;
        assert(g[key].id == nodes[key].id);
        lemma_child_with_id_kept(g, nodes, cs, g[key].children, path[0]);
        let c = child_with_id(nodes, cs, path[0])->0;
        lemma_child_with_id(nodes, cs, path[0]);
        lemma_find_kept(g, nodes, c as int, path.drop_first());
    }
}

/// Growing a path keeps the arena well formed and its shape, touches no node before
/// `key`, and leads the path to the node it returns.
#[verifier::spinoff_prover]
pub proof fn lemma_grown<T>(nodes: Seq<NodeView<T>>, key: int, path: Seq<Id>)
    requires
        nodes_wf(nodes),
        0 <= key < nodes.len(),
        nodes.len() + path.len() <= usize::MAX,
    ensures
        nodes_wf(grown(nodes, key, path).0),
        keeps_shape(grown(nodes, key, path).0, nodes),
        forall|i: int| 0 <= i < key ==> grown(nodes, key, path).0[i] == nodes[i],
        forall|i: int| 0 <= i < nodes.len() ==> (#[trigger] grown(nodes, key, path).0[i]).data == nodes[i].data,
        forall|i: int|
            nodes.len() <= i < grown(nodes, key, path).0.len() ==> (#[trigger] grown(nodes, key, path).0[i]).data is None,
        0 <= grown(nodes, key, path).1 < grown(nodes, key, path).0.len(),
        find(grown(nodes, key, path).0, key, path) == Some(grown(nodes, key, path).1),
        data_count(grown(nodes, key, path).0) == data_count(nodes),
        grown(nodes, key, path).0.len() <= nodes.len() + path.len(),
    decreases path.len(),
{
    if path.len() > 0 {
        let cs = nodes[key].children;
        lemma_child_with_id(nodes, cs, path[0]);
        let (g, k) = grown(nodes, key, path);
        match child_with_id(nodes, cs, path[0]) {
            Some(c) => {
                let j = choose|j: int| 0 <= j < cs.len() && cs[j] == c;
                assert(nodes[key].children[j] == c);
                lemma_grown(nodes, c as int, path.drop_first());
                assert(g[key] == nodes[key]);
                lemma_child_with_id_kept(g, nodes, cs, g[key].children, path[0]);
            },
            None => {
                let n = nodes.len() as int;
                let nk = NodeView { children: cs.push(n as usize), ..nodes[key] };
                let nodes1 = nodes.update(key, nk);
                let nodes2 = nodes1.push(NodeView { id: path[0], data: None, children: Seq::empty() });
                assert forall|a: int, b: int|
                    0 <= a < nodes2.len() && 0 <= b < nodes2[a].children.len() implies a < #[trigger] nodes2[a].children[b]
                        < nodes2.len() by {
                    if a == key && b == cs.len() {
                    } else if a < n {
                        assert(nodes2[a].children[b] == nodes[a].children[b]);
                    }
                }
                assert(nodes_wf(nodes2));
                assert(keeps_shape(nodes2, nodes)) by {
                    assert forall|i: int| 0 <= i < nodes.len() implies #[trigger] nodes2[i].id == nodes[i].id
                        && nodes[i].children.is_prefix_of(nodes2[i].children) by {
                        if i == key {
                            assert(cs.is_prefix_of(cs.push(n as usize))) by {
                                assert forall|b: int| 0 <= b < cs.len() implies cs[b] == cs.push(n as usize)[b] by {}
                            }
                        } else {
                            assert(nodes[i].children.is_prefix_of(nodes2[i].children)) by {
                                assert(nodes2[i] == nodes[i]);
                            }
                        }
                    }
                }
                lemma_grown(nodes2, n, path.drop_first());
                assert(keeps_shape(g, nodes)) by {
                    assert forall|i: int| 0 <= i < nodes.len() implies #[trigger] g[i].id == nodes[i].id
                        && nodes[i].children.is_prefix_of(g[i].children) by {
                        assert(g[i] == nodes2[i]);
                        if i == key {
                            assert(cs.is_prefix_of(cs.push(n as usize))) by {
                                assert forall|b: int| 0 <= b < cs.len() implies cs[b] == cs.push(n as usize)[b] by {}
                            }
                        } else {
                            assert(nodes2[i] == nodes[i]);
                        }
                    }
                }
                assert(g[key] == nodes2[key]);
                assert(g[key].children == cs.push(n as usize));
                assert(g[n].id == nodes2[n].id);
                lemma_child_with_id_cs_push(g, cs, n as usize, path[0]);
                assert(g[n].id == nodes2[n].id);
                assert(g[n].id == path[0]);
                assert(data_count(nodes1) == data_count(nodes)) by {
                    lemma_data_count_update(nodes, key, nk);
                }
                assert(data_count(nodes2) == data_count(nodes1)) by {
                    assert(nodes2.drop_last() =~= nodes1);
                }
            },
        }
    }
}

/// Where none of `cs` has the id, a child appended after them with the id is the one
/// found.
proof fn lemma_child_with_id_cs_push<T>(g: Seq<NodeView<T>>, cs: Seq<usize>, n: usize, id: Id)
    requires
        forall|j: int| 0 <= j < cs.len() ==> g[#[trigger] cs[j] as int].id != id,
        g[n as int].id == id,
    ensures
        child_with_id(g, cs.push(n), id) == Some(n),
    decreases cs.len(),
{
    if cs.len() > 0 {
        assert(cs.push(n).drop_first() =~= cs.drop_first().push(n));
        assert forall|j: int| 0 <= j < cs.drop_first().len() implies g[#[trigger] cs.drop_first()[j] as int].id != id by {
            assert(cs.drop_first()[j] == cs[j + 1]);
        }
        lemma_child_with_id_cs_push(g, cs.drop_first(), n, id);
        assert(cs.push(n)[0] == cs[0]);
    } else {
        assert(cs.push(n)[0] == n);
    }
}

/// Changing one node leaves the count of the others.
pub proof fn lemma_data_count_update<T>(nodes: Seq<NodeView<T>>, k: int, v: NodeView<T>)
    requires
        0 <= k < nodes.len(),
    ensures
        data_count(nodes.update(k, v)) + (if nodes[k].data is Some { 1int } else { 0int }) == data_count(nodes) + (
        if v.data is Some {
            1int
        } else {
            0int
        }),
    decreases nodes.len(),
{
    let u = nodes.update(k, v);
    if k < nodes.len() - 1 {
        assert(u.drop_last() =~= nodes.drop_last().update(k, v));
        lemma_data_count_update(nodes.drop_last(), k, v);
    } else {
        assert(u.drop_last() =~= nodes.drop_last());
    }
}

/// The first match among `cs` is at `j` where none of the positions before `j` has the
/// id; where no position at all has it, there is none.
proof fn lemma_child_with_id_at<T>(nodes: Seq<NodeView<T>>, cs: Seq<usize>, id: Id, j: int)
    requires
        0 <= j <= cs.len(),
        forall|t: int| 0 <= t < j ==> nodes[#[trigger] cs[t] as int].id != id,
        j < cs.len() ==> nodes[cs[j] as int].id == id,
    ensures
        child_with_id(nodes, cs, id) == (if j < cs.len() {
            Some(cs[j])
        } else {
            None
        }),
    decreases cs.len(),
{
    if cs.len() > 0 && j > 0 {
        assert forall|t: int| 0 <= t < j - 1 implies nodes[#[trigger] cs.drop_first()[t] as int].id != id by {
            assert(cs.drop_first()[t] == cs[t + 1]);
        }
        lemma_child_with_id_at(nodes, cs.drop_first(), id, j - 1);
        if j < cs.len() {
            assert(cs.drop_first()[j - 1] == cs[j]);
        }
        assert(nodes[cs[0] as int].id != id);
    }
}

/// No more nodes hold data than there are nodes.
proof fn lemma_data_count_bound<T>(nodes: Seq<NodeView<T>>)
    ensures
        data_count(nodes) <= nodes.len(),
    decreases nodes.len(),
{
    if nodes.len() > 0 {
        lemma_data_count_bound(nodes.drop_last());
    }
}

/// A tree of ids: each node is reached from the root by a path of ids and may hold data.
/// The root is the first node of the arena; nodes are only ever added.
#[derive(Debug)]
pub struct IdTree<T> {
    arena: Vec<Node<T>>,
    len: usize,
}

impl<T> View for IdTree<T> {
    type V = Seq<NodeView<T>>;

    closed spec fn view(&self) -> Seq<NodeView<T>> {
        self.arena@.map_values(|n: Node<T>| n@)
    }
}

impl<T> IdTree<T> {
    /// The arena is well formed and `len` counts the nodes that hold data.
    pub closed spec fn wf(&self) -> bool {
        &&& nodes_wf(self@)
        &&& self.len == data_count(self@)
        &&& self@.len() <= usize::MAX
    }

    /// A tree with only the root, which holds no data.
    pub fn new() -> (t: Self)
        ensures
            t.wf(),
            t@ == seq![NodeView::<T> { id: Id::root_spec(), data: None, children: Seq::empty() }],
    {
        Self::with_capacity(0)
    }

    /// As `new`, with room reserved for `capacity` more nodes.
    pub fn with_capacity(capacity: usize) -> (t: Self)
        requires
            capacity < usize::MAX,
        ensures
            t.wf(),
            t@ == seq![NodeView::<T> { id: Id::root_spec(), data: None, children: Seq::empty() }],
    {
        let mut arena: Vec<Node<T>> = Vec::with_capacity(capacity + 1);
        let root = Node { id: Id::root(), data: None, children: Vec::new() };
        arena.push(root);
        let t = IdTree { arena, len: 0 };
        proof {
            Id::lemma_root_spec();
            assert(t@ =~= seq![NodeView::<T> { id: Id::root_spec(), data: None, children: Seq::empty() }]);
            assert(t@.drop_last() =~= Seq::<NodeView<T>>::empty());
            assert(data_count(Seq::<NodeView<T>>::empty()) == 0);
            assert(t@.last().data is None);
            assert(data_count(t@) == 0);
            assert(t@[0].id@ == 1);
            assert(nodes_wf(t@));
        }
        t
    }

    /// No node holds data.
    pub fn is_empty(&self) -> (b: bool)
        requires
            self.wf(),
        ensures
            b == (data_count(self@) == 0),
    {
        self.len == 0
    }

    /// A cursor on the root.
    pub fn root(&self) -> (c: Cursor<'_, T>)
        requires
            self.wf(),
        ensures
            c.wf(),
            c.nodes() == self@,
            c.key() == 0,
    {
        Cursor { arena: self.arena.as_slice(), key: 0 }
    }

    /// Makes `id_path` exist and returns the node it leads to.
    #[verifier::spinoff_prover]
    fn insertion_point(&mut self, id_path: &IdPath) -> (key: usize)
        requires
            old(self).wf(),
            old(self)@.len() + id_path@.len() <= usize::MAX,
        ensures
            final(self).wf(),
            final(self)@ == grown(old(self)@, 0, id_path@).0,
            key == grown(old(self)@, 0, id_path@).1,
    {
        let mut key: usize = 0;
        let mut i: usize = 0;
        assert(id_path@.skip(0) =~= id_path@);
        while i < id_path.len()
            invariant
                nodes_wf(self@),
                self.len == data_count(self@),
                0 <= key < self@.len(),
                i <= id_path.len(),
                self@.len() + (id_path@.len() - i) <= usize::MAX,
                grown(self@, key as int, id_path@.skip(i as int)) == grown(old(self)@, 0, id_path@),
            decreases id_path.len() - i,
        {
            let head = id_path[i];
            let ghost nodes = self@;
            let ghost rest = id_path@.skip(i as int);
            assert(rest[0] == head);
            assert(rest.drop_first() =~= id_path@.skip(i + 1));
            let n_children = self.arena[key].children.len();
            let ghost cs = nodes[key as int].children;
            assert(self.arena@[key as int]@.children == cs);
            let mut j: usize = 0;
            let mut found: Option<usize> = None;
            while j < n_children && found.is_none()
                invariant
                    self@ == nodes,
                    0 <= key < nodes.len(),
                    n_children == cs.len(),
                    cs == nodes[key as int].children,
                    nodes_wf(nodes),
                    j <= n_children,
                    found is None ==> forall|t: int| 0 <= t < j ==> nodes[#[trigger] cs[t] as int].id != head,
                    found matches Some(c) ==> j >= 1 && c == cs[j - 1] && nodes[c as int].id == head && forall|t: int|
                        0 <= t < j - 1 ==> nodes[#[trigger] cs[t] as int].id != head,
                decreases n_children - j,
            {
                let c = self.arena[key].children[j];
                assert(c == cs[j as int]);
                if self.arena[c].id == head {
                    found = Some(c);
                }
                j = j + 1;
            }
            proof {
                match found {
                    Some(c) => lemma_child_with_id_at(nodes, cs, head, j - 1),
                    None => lemma_child_with_id_at(nodes, cs, head, j as int),
                }
            }
            match found {
                Some(c) => {
                    key = c;
                },
                None => {
                    let next_key = self.arena.len();
                    self.arena[key].children.push(next_key);
                    self.arena.push(Node { id: head, data: None, children: Vec::new() });
                    proof {
                        let n = nodes.len() as int;
                        let nodes2 = nodes.update(
                            key as int,
                            NodeView { children: cs.push(n as usize), ..nodes[key as int] },
                        ).push(NodeView { id: head, data: None, children: Seq::empty() });
                        assert(self@ =~= nodes2);
                        lemma_grown(nodes, key as int, rest);
                        let ghost nk = NodeView { children: cs.push(n as usize), ..nodes[key as int] };
                        lemma_data_count_update(nodes, key as int, nk);
                        assert(nodes2.drop_last() =~= nodes.update(key as int, nk));
                        assert forall|a: int, b: int|
                            0 <= a < nodes2.len() && 0 <= b < nodes2[a].children.len() implies a
                                < #[trigger] nodes2[a].children[b] < nodes2.len() by {
                            if a == key && b == cs.len() {
                            } else if a < n {
                                assert(nodes2[a].children[b] == nodes[a].children[b]);
                            }
                        }
                    }
                    key = next_key;
                },
            }
            i = i + 1;
        }
        proof {
            assert(id_path@.skip(i as int) =~= Seq::<Id>::empty());
        }
        key
    }

    /// Stores `data` at the node `id_path` leads to, adding the nodes it lacks.
    #[verifier::spinoff_prover]
    pub fn insert(&mut self, id_path: &IdPath, data: T)
        requires
            old(self).wf(),
            old(self)@.len() + id_path@.len() <= usize::MAX,
        ensures
            final(self).wf(),
            ({
                let (g, k) = grown(old(self)@, 0, id_path@);
                final(self)@ == g.update(k, NodeView { data: Some(data), ..g[k] })
            }),
            find(final(self)@, 0, id_path@) == Some(grown(old(self)@, 0, id_path@).1),
            final(self)@[grown(old(self)@, 0, id_path@).1].data == Some(data),
            forall|q: Seq<Id>|
                #[trigger] find(old(self)@, 0, q) is Some ==> find(final(self)@, 0, q) == find(old(self)@, 0, q)
                    && (find(old(self)@, 0, q)->0 != grown(old(self)@, 0, id_path@).1 ==> final(self)@[find(
                    old(self)@,
                    0,
                    q,
                )->0].data == old(self)@[find(old(self)@, 0, q)->0].data),
    {
        let ghost o = self@;
        let key = self.insertion_point(id_path);
        let ghost g = self@;
        proof {
            lemma_grown(o, 0, id_path@);
            lemma_data_count_bound(self@);
        }
        if self.arena[key].data.is_none() {
            proof {
                let v = NodeView { data: Some(data), ..g[key as int] };
                lemma_data_count_update(g, key as int, v);
                lemma_data_count_bound(g.update(key as int, v));
            }
            self.len = self.len + 1;
        }
        self.arena[key].data = Some(data);
        proof {
            let v = NodeView { data: Some(data), ..g[key as int] };
            assert(self@ =~= g.update(key as int, v));
            lemma_data_count_update(g, key as int, v);
            assert(keeps_shape(self@, g));
            lemma_find_kept(self@, g, 0, id_path@);
            assert(keeps_shape(g, o));
            assert(keeps_shape(self@, o)) by {
                assert forall|i: int| 0 <= i < o.len() implies #[trigger] self@[i].id == o[i].id
                    && o[i].children.is_prefix_of(self@[i].children) by {
                    assert(g[i].id == o[i].id);
                }
            }
            assert forall|q: Seq<Id>| #[trigger] find(o, 0, q) is Some implies find(self@, 0, q) == find(o, 0, q)
                && (find(o, 0, q)->0 != key ==> self@[find(o, 0, q)->0].data == o[find(o, 0, q)->0].data) by {
                lemma_find_kept(self@, o, 0, q);
                lemma_find_in_range(o, 0, q);
            }
        }
    }

    /// Stores at the node `id_path` leads to either `data`, where the node holds nothing,
    /// or `f` applied to what it holds and `data`; adds the nodes the path lacks.
    #[verifier::spinoff_prover]
    pub fn insert_or_update<F: FnOnce(T, T) -> T>(&mut self, id_path: &IdPath, data: T, f: F)
        requires
            old(self).wf(),
            old(self)@.len() + id_path@.len() <= usize::MAX,
            forall|a: T, b: T| #[trigger] f.requires((a, b)),
        ensures
            final(self).wf(),
            ({
                let (g, k) = grown(old(self)@, 0, id_path@);
                &&& final(self)@ == g.update(k, NodeView { data: final(self)@[k].data, ..g[k] })
                &&& final(self)@[k].data matches Some(r) && match g[k].data {
                    Some(o) => f.ensures((o, data), r),
                    None => r == data,
                }
            }),
            find(final(self)@, 0, id_path@) == Some(grown(old(self)@, 0, id_path@).1),
    {
        let ghost o = self@;
        let key = self.insertion_point(id_path);
        let ghost g = self@;
        proof {
            lemma_grown(o, 0, id_path@);
            lemma_data_count_bound(self@);
        }
        let old_data = self.arena[key].data.take();
        let new_data = match old_data {
            Some(od) => f(od, data),
            None => {
                proof {
                    let v = NodeView { data: Some(data), ..g[key as int] };
                    lemma_data_count_update(g, key as int, v);
                    lemma_data_count_bound(g.update(key as int, v));
                }
                self.len = self.len + 1;
                data
            },
        };
        self.arena[key].data = Some(new_data);
        proof {
            let v = NodeView { data: Some(new_data), ..g[key as int] };
            assert(self@ =~= g.update(key as int, v));
            lemma_data_count_update(g, key as int, v);
            assert(keeps_shape(self@, g));
            lemma_find_kept(self@, g, 0, id_path@);
        }
    }

    /// A tree holding each piece of data at the node its path leads to, the later of two
    /// entries with the same path winning.
    #[verifier::spinoff_prover]
    pub fn from_iter(entries: Vec<(Vec<Id>, T)>) -> (t: Self)
        requires
            entries.len() < usize::MAX,
            1 + paths_len(entries@) <= usize::MAX,
        ensures
            t.wf(),
            t@ == inserted_all(
                seq![NodeView::<T> { id: Id::root_spec(), data: None, children: Seq::empty() }],
                entries@,
            ),
    {
        let ghost all = entries@;
        let mut entries = entries;
        let mut t = Self::with_capacity(entries.len());
        let ghost start = t@;
        let ghost mut i: int = 0;
        proof {
            assert(all.skip(0) =~= all);
            assert(all.take(0) =~= Seq::<(Vec<Id>, T)>::empty());
        }
        while entries.len() > 0
            invariant
                t.wf(),
                0 <= i <= all.len(),
                entries@ == all.skip(i),
                t@ == inserted_all(start, all.take(i)),
                t@.len() + paths_len(entries@) <= usize::MAX,
            decreases entries.len(),
        {
            let (path, value) = entries.remove(0);
            proof {
                assert(all[i] == (path, value));
                lemma_paths_len_first(all.skip(i));
                assert(all.skip(i).drop_first() =~= all.skip(i + 1));
                assert(entries@ =~= all.skip(i + 1));
                assert(all.take(i + 1).drop_last() =~= all.take(i));
                assert(all.take(i + 1).last() == all[i]);
                lemma_grown(t@, 0, path@);
            }
            t.insert(path.as_slice(), value);
            proof {
                i = i + 1;
            }
        }
        proof {
            assert(all.take(i) =~= all);
        }
        t
    }
}

/// The total length of the paths of the entries.
pub open spec fn paths_len<T>(entries: Seq<(Vec<Id>, T)>) -> nat
    decreases entries.len(),
{
    if entries.len() == 0 {
        0
    } else {
        entries[0].0@.len() + paths_len(entries.drop_first())
    }
}

proof fn lemma_paths_len_first<T>(entries: Seq<(Vec<Id>, T)>)
    requires
        entries.len() > 0,
    ensures
        paths_len(entries) == entries[0].0@.len() + paths_len(entries.drop_first()),
{
}

/// The nodes after `insert` put data at a path.
pub open spec fn inserted<T>(nodes: Seq<NodeView<T>>, path: Seq<Id>, data: T) -> Seq<NodeView<T>> {
    let (g, k) = grown(nodes, 0, path);
    g.update(k, NodeView { data: Some(data), ..g[k] })
}

/// The nodes after inserting every entry in turn.
pub open spec fn inserted_all<T>(nodes: Seq<NodeView<T>>, entries: Seq<(Vec<Id>, T)>) -> Seq<NodeView<T>>
    decreases entries.len(),
{
    if entries.len() == 0 {
        nodes
    } else {
        let last = entries.last();
        inserted(inserted_all(nodes, entries.drop_last()), last.0@, last.1)
    }
}

impl<T> Default for IdTree<T> {
    fn default() -> (t: Self)
        ensures
            t.wf(),
            t@ == seq![NodeView::<T> { id: Id::root_spec(), data: None, children: Seq::empty() }],
    {
        Self::new()
    }
}

/// Every position on the next level is a child of one on this level, so it comes later
/// in the arena.
proof fn lemma_next_level_bound<T>(nodes: Seq<NodeView<T>>, frontier: Seq<usize>, b: int)
    requires
        nodes_wf(nodes),
        forall|j: int| 0 <= j < frontier.len() ==> b <= #[trigger] frontier[j] < nodes.len(),
    ensures
        forall|i: int|
            0 <= i < next_level(nodes, frontier).len() ==> b < #[trigger] next_level(nodes, frontier)[i]
                < nodes.len(),
    decreases frontier.len(),
{
    if frontier.len() > 0 {
        let f = frontier.drop_last();
        assert forall|j: int| 0 <= j < f.len() implies b <= #[trigger] f[j] < nodes.len() by {
            assert(f[j] == frontier[j]);
        }
        lemma_next_level_bound(nodes, f, b);
        let k = frontier.last() as int;
        assert(b <= k < nodes.len());
        let nl = next_level(nodes, frontier);
        let head = next_level(nodes, f);
        assert forall|i: int| 0 <= i < nl.len() implies b < #[trigger] nl[i] < nodes.len() by {
            if i >= head.len() {
                assert(nl[i] == nodes[k].children[i - head.len()]);
            } else {
                assert(nl[i] == head[i]);
            }
        }
    }
}

/// Breadth-first listing needs no more levels than there are nodes: with enough fuel,
/// more fuel changes nothing, so `levels` lists every node below the frontier.
pub proof fn lemma_levels_complete<T>(nodes: Seq<NodeView<T>>, frontier: Seq<usize>, b: int, fuel: nat, extra: nat)
    requires
        nodes_wf(nodes),
        forall|j: int| 0 <= j < frontier.len() ==> b <= #[trigger] frontier[j] < nodes.len(),
        b + fuel >= nodes.len(),
    ensures
        levels(nodes, frontier, fuel + extra) == levels(nodes, frontier, fuel),
    decreases fuel,
{
    if frontier.len() > 0 {
        if fuel == 0 {
            assert(b <= frontier[0] < nodes.len());
        } else {
            lemma_next_level_bound(nodes, frontier, b);
            lemma_levels_complete(nodes, next_level(nodes, frontier), b + 1, (fuel - 1) as nat, extra);
            assert((fuel + extra - 1) as nat == (fuel - 1) as nat + extra);
        }
    }
}

/// Where a path leads, it leads to a node.
proof fn lemma_find_in_range<T>(nodes: Seq<NodeView<T>>, key: int, path: Seq<Id>)
    requires
        nodes_wf(nodes),
        0 <= key < nodes.len(),
    ensures
        find(nodes, key, path) matches Some(j) ==> 0 <= j < nodes.len(),
    decreases path.len(),
{
    if path.len() > 0 {
        let cs = nodes[key].children;
        lemma_child_with_id(nodes, cs, path[0]);
        if let Some(c) = child_with_id(nodes, cs, path[0]) {
            let j = choose|j: int| 0 <= j < cs.len() && cs[j] == c;
            assert(nodes[key].children[j] == c);
            lemma_find_in_range(nodes, c as int, path.drop_first());
        }
    }
}

/// A node of an id tree together with the arena it lives in.
pub struct Cursor<'a, T> {
    arena: &'a [Node<T>],
    key: usize,
}

impl<'a, T> Cursor<'a, T> {
    pub closed spec fn nodes(&self) -> Seq<NodeView<T>> {
        self.arena@.map_values(|n: Node<T>| n@)
    }

    /// The position of the node in the arena.
    pub closed spec fn key(&self) -> int {
        self.key as int
    }

    pub closed spec fn wf(&self) -> bool {
        nodes_wf(self.nodes()) && self.key < self.arena@.len()
    }

    /// The node under the cursor.
    pub fn current(&self) -> (n: &'a Node<T>)
        requires
            self.wf(),
        ensures
            n@ == self.nodes()[self.key()],
    {
        &self.arena[self.key]
    }

    /// Cursors on the children, in order.
    pub fn children(&self) -> (r: Vec<Cursor<'a, T>>)
        requires
            self.wf(),
        ensures
            r.len() == self.nodes()[self.key()].children.len(),
            forall|i: int|
                0 <= i < r.len() ==> (#[trigger] r@[i]).wf() && r@[i].nodes() == self.nodes() && r@[i].key()
                    == self.nodes()[self.key()].children[i],
    {
        let cs = &self.arena[self.key].children;
        let ghost nodes = self.nodes();
        let ghost kids = nodes[self.key as int].children;
        assert(cs@ == kids);
        let mut r: Vec<Cursor<'a, T>> = Vec::new();
        let mut i: usize = 0;
        while i < cs.len()
            invariant
                i <= cs.len(),
                cs@ == kids,
                self.wf(),
                nodes == self.nodes(),
                kids == nodes[self.key()].children,
                r.len() == i,
                forall|j: int|
                    0 <= j < i ==> (#[trigger] r@[j]).wf() && r@[j].nodes() == nodes && r@[j].key() == kids[j],
            decreases cs.len() - i,
        {
            let c = Cursor { arena: self.arena, key: cs[i] };
            assert(self.key() < kids[i as int] < nodes.len());
            r.push(c);
            i = i + 1;
        }
        r
    }

    /// Cursors on every node below, breadth-first: the children, then the grandchildren,
    /// and so on, each level in order.
    #[verifier::spinoff_prover]
    pub fn descendants(&self) -> (r: Vec<Cursor<'a, T>>)
        requires
            self.wf(),
        ensures
            r.len() == levels(self.nodes(), self.nodes()[self.key()].children, self.nodes().len()).len(),
            forall|i: int|
                0 <= i < r.len() ==> (#[trigger] r@[i]).wf() && r@[i].nodes() == self.nodes() && r@[i].key()
                    == levels(self.nodes(), self.nodes()[self.key()].children, self.nodes().len())[i],
    {
        let ghost nodes = self.nodes();
        let ghost total = levels(nodes, nodes[self.key()].children, nodes.len());
        let mut frontier: Vec<usize> = Vec::new();
        let cs = &self.arena[self.key].children;
        let mut i: usize = 0;
        while i < cs.len()
            invariant
                i <= cs.len(),
                cs@ == nodes[self.key()].children,
                self.wf(),
                nodes == self.nodes(),
                frontier@ == cs@.take(i as int),
            decreases cs.len() - i,
        {
            frontier.push(cs[i]);
            i = i + 1;
            proof {
                assert(frontier@ =~= cs@.take(i as int));
            }
        }
        proof {
            assert(frontier@ =~= cs@);
        }
        let mut r: Vec<Cursor<'a, T>> = Vec::new();
        let ghost mut got: Seq<usize> = Seq::empty();
        let mut fuel: usize = self.arena.len();
        while fuel > 0 && frontier.len() > 0
            invariant
                self.wf(),
                nodes == self.nodes(),
                fuel <= nodes.len(),
                forall|j: int| 0 <= j < frontier.len() ==> 0 <= #[trigger] frontier@[j] < nodes.len(),
                got + levels(nodes, frontier@, fuel as nat) == total,
                r.len() == got.len(),
                forall|j: int|
                    0 <= j < r.len() ==> (#[trigger] r@[j]).wf() && r@[j].nodes() == nodes && r@[j].key() == got[j],
            decreases fuel,
        {
            let mut next: Vec<usize> = Vec::new();
            let ghost got0 = got;
            let mut i: usize = 0;
            while i < frontier.len()
                invariant
                    self.wf(),
                    nodes == self.nodes(),
                    i <= frontier.len(),
                    forall|j: int| 0 <= j < frontier.len() ==> 0 <= #[trigger] frontier@[j] < nodes.len(),
                    got == got0 + frontier@.take(i as int),
                    next@ == next_level(nodes, frontier@.take(i as int)),
                    forall|j: int| 0 <= j < next.len() ==> 0 <= #[trigger] next@[j] < nodes.len(),
                    r.len() == got.len(),
                    forall|j: int|
                        0 <= j < r.len() ==> (#[trigger] r@[j]).wf() && r@[j].nodes() == nodes && r@[j].key() == got[j],
                decreases frontier.len() - i,
            {
                let k = frontier[i];
                r.push(Cursor { arena: self.arena, key: k });
                proof {
                    got = got + seq![k];
                    assert(frontier@.take(i + 1) =~= frontier@.take(i as int).push(k));
                    assert(got =~= got0 + frontier@.take(i + 1));
                }
                let ks = &self.arena[k].children;
                let ghost next0 = next@;
                let mut j: usize = 0;
                while j < ks.len()
                    invariant
                        self.wf(),
                        nodes == self.nodes(),
                        j <= ks.len(),
                        0 <= k < nodes.len(),
                        ks@ == nodes[k as int].children,
                        next@ == next0 + ks@.take(j as int),
                        forall|t: int| 0 <= t < next0.len() ==> 0 <= #[trigger] next0[t] < nodes.len(),
                        forall|t: int| 0 <= t < next.len() ==> 0 <= #[trigger] next@[t] < nodes.len(),
                    decreases ks.len() - j,
                {
                    assert(k < ks@[j as int] < nodes.len());
                    next.push(ks[j]);
                    j = j + 1;
                    proof {
                        assert(next@ =~= next0 + ks@.take(j as int));
                    }
                }
                proof {
                    assert(ks@.take(j as int) =~= ks@);
                    let f = frontier@.take(i + 1);
                    assert(f.drop_last() =~= frontier@.take(i as int));
                    assert(f.last() == k);
                }
                i = i + 1;
            }
            proof {
                assert(frontier@.take(i as int) =~= frontier@);
                assert(got + levels(nodes, next@, (fuel - 1) as nat) =~= got0 + levels(nodes, frontier@, fuel as nat));
            }
            frontier = next;
            fuel = fuel - 1;
        }
        proof {
            assert(got =~= total);
        }
        r
    }
}


} // verus!
