use vstd::prelude::*;

verus! {

pub type NodeId = usize;

/// The position of the first `x` in `s`.
pub open spec fn first_index(s: Seq<NodeId>, x: NodeId) -> int
    decreases s.len(),
{
    if s.len() == 0 || s[0] == x {
        0
    } else {
        1 + first_index(s.drop_first(), x)
    }
}

pub proof fn lemma_first_index(s: Seq<NodeId>, x: NodeId)
    requires
        s.contains(x),
    ensures
        0 <= first_index(s, x) < s.len(),
        s[first_index(s, x)] == x,
        forall|j: int| 0 <= j < first_index(s, x) ==> s[j] != x,
    decreases s.len(),
{
    if s[0] != x {
        let j = choose|j: int| 0 <= j < s.len() && s[j] == x;
        assert(s.drop_first()[j - 1] == x);
        lemma_first_index(s.drop_first(), x);
        assert forall|i: int| 0 <= i < first_index(s, x) implies s[i] != x by {
            if i > 0 {
                assert(s[i] == s.drop_first()[i - 1]);
            }
        }
    }
}

/// The number of entries in all the lists together.
pub open spec fn total(kids: Seq<Seq<NodeId>>) -> nat
    decreases kids.len(),
{
    if kids.len() == 0 {
        0
    } else {
        total(kids.drop_last()) + kids.last().len()
    }
}

pub proof fn lemma_total_update(kids: Seq<Seq<NodeId>>, n: int)
    requires
        0 <= n < kids.len(),
    ensures
        total(kids.update(n, Seq::empty())) + kids[n].len() == total(kids),
    decreases kids.len(),
{
    let k2 = kids.update(n, Seq::empty());
    if n < kids.len() - 1 {
        lemma_total_update(kids.drop_last(), n);
        assert(k2.drop_last() =~= kids.drop_last().update(n, Seq::empty()));
    } else {
        assert(k2.drop_last() =~= kids.drop_last());
    }
}

/// Breadth-first freeing: the nodes of `queue` from position `ix` on are taken in turn,
/// each losing its children, which join the end of the queue. The result is the children
/// lists and the queue once every queued node was taken.
pub open spec fn drain(kids: Seq<Seq<NodeId>>, queue: Seq<NodeId>, ix: int) -> (Seq<Seq<NodeId>>, Seq<NodeId>)
    decreases total(kids) + queue.len() - ix,
    when 0 <= ix && forall|i: int| ix <= i < queue.len() ==> 0 <= #[trigger] queue[i] < kids.len()
    via drain_decreases
{
    if ix >= queue.len() {
        (kids, queue)
    } else {
        let n = queue[ix];
        drain(kids.update(n as int, Seq::empty()), queue + kids[n as int], ix + 1)
    }
}

#[via_fn]
proof fn drain_decreases(kids: Seq<Seq<NodeId>>, queue: Seq<NodeId>, ix: int) {
    if ix < queue.len() {
        let n = queue[ix];
        lemma_total_update(kids, n as int);
    }
}

/// A forest of node ids kept as children lists and parent links; a node without parent
/// is its own parent. Freed ids wait in a free list to be handed out again.
pub struct Graph {
    pub root: NodeId,
    pub children: Vec<Vec<NodeId>>,
    pub parent: Vec<NodeId>,
    free_list: Vec<NodeId>,
}

impl Default for Graph {
    fn default() -> (g: Self)
        ensures
            g.root_id() == 0,
            g.kids() == Seq::<Seq<NodeId>>::empty(),
            g.parents() == Seq::<NodeId>::empty(),
            g.wf(),
            g.free() == Seq::<NodeId>::empty(),
            g.free_detached(),
    {
        let g = Graph { root: 0, children: Vec::new(), parent: Vec::new(), free_list: Vec::new() };
        proof {
            assert(g.kids() =~= Seq::<Seq<NodeId>>::empty());
        }
        g
    }
}

impl Graph {
    /// The children lists as sequences.
    pub closed spec fn kids(&self) -> Seq<Seq<NodeId>> {
        self.children@.map_values(|v: Vec<NodeId>| v@)
    }

    /// The parent of each id.
    pub closed spec fn parents(&self) -> Seq<NodeId> {
        self.parent@
    }

    pub closed spec fn root_id(&self) -> NodeId {
        self.root
    }

    /// The ids waiting to be handed out again, the next one last.
    pub closed spec fn free(&self) -> Seq<NodeId> {
        self.free_list@
    }

    /// Every id that the lists mention has a slot.
    pub closed spec fn wf(&self) -> bool {
        &&& self.children.len() == self.parent.len()
        &&& forall|n: int, j: int|
            0 <= n < self.kids().len() && 0 <= j < self.kids()[n].len() ==> #[trigger] self.kids()[n][j]
                < self.parent.len()
        &&& forall|i: int| 0 <= i < self.free().len() ==> #[trigger] self.free()[i] < self.parent.len()
    }

    /// Every id waiting in the free list is its own parent and has no children.
    pub open spec fn free_detached(&self) -> bool {
        forall|i: int|
            0 <= i < self.free().len() ==> self.parents()[#[trigger] self.free()[i] as int] == self.free()[i]
                && self.kids()[self.free()[i] as int] == Seq::<NodeId>::empty()
    }

    /// Takes the children list of `n` out, leaving an empty one.
    fn take_children(&mut self, n: NodeId) -> (v: Vec<NodeId>)
        requires
            n < old(self).children.len(),
        ensures
            v@ == old(self).kids()[n as int],
            final(self).kids() == old(self).kids().update(n as int, Seq::empty()),
            final(self).kids().len() == old(self).kids().len(),
            final(self).parents() == old(self).parents(),
            final(self).root_id() == old(self).root_id(),
            final(self).free() == old(self).free(),
    {
        self.children.push(Vec::new());
        let v = self.children.swap_remove(n);
        proof {
            assert(self.kids() =~= old(self).kids().update(n as int, Seq::empty()));
        }
        v
    }

    /// Puts `v` in as the children list of `n`.
    fn put_children(&mut self, n: NodeId, v: Vec<NodeId>)
        requires
            n < old(self).children.len(),
        ensures
            final(self).kids() == old(self).kids().update(n as int, v@),
            final(self).children.len() == old(self).children.len(),
            final(self).parent == old(self).parent,
            final(self).root == old(self).root,
            final(self).free() == old(self).free(),
    {
        let ghost o = self.children@;
        self.children.set(n, v);
        proof {
            assert forall|i: int| 0 <= i < self.kids().len() implies self.kids()[i] == old(self).kids().update(n as int, v@)[i] by {
                if i != n {
                    assert(old(self).kids()[i] == o[i]@);
                }
            }
            assert(self.kids() =~= old(self).kids().update(n as int, v@));
        }
    }

    /// Hands out an id: the last freed one where there is one, else a new slot without
    /// children that is its own parent.
    pub fn alloc_node(&mut self) -> (id: NodeId)
        requires
            old(self).wf(),
            old(self).free().len() > 0 || old(self).kids().len() < usize::MAX,
        ensures
            final(self).wf(),
            final(self).root_id() == old(self).root_id(),
            old(self).free().len() > 0 ==> {
                &&& id == old(self).free().last()
                &&& final(self).free() == old(self).free().drop_last()
                &&& final(self).kids() == old(self).kids()
                &&& final(self).parents() == old(self).parents()
            },
            old(self).free().len() == 0 ==> {
                &&& id == old(self).kids().len()
                &&& final(self).free() == old(self).free()
                &&& final(self).kids() == old(self).kids().push(Seq::empty())
                &&& final(self).parents() == old(self).parents().push(id)
            },
            old(self).free_detached() ==> {
                &&& final(self).free_detached()
                &&& final(self).parents()[id as int] == id
                &&& final(self).kids()[id as int] == Seq::<NodeId>::empty()
            },
    {
        if let Some(id) = self.free_list.pop() {
            return id;
        }
        let id = self.children.len();
        self.children.push(Vec::new());
        self.parent.push(id);
        proof {
            assert(self.kids() =~= old(self).kids().push(Seq::empty()));
            assert forall|n: int, j: int|
                0 <= n < self.kids().len() && 0 <= j < self.kids()[n].len() implies #[trigger] self.kids()[n][j]
                    < self.parent.len() by {
                assert(n < old(self).kids().len());
                assert(self.kids()[n] == old(self).kids()[n]);
            }
        }
        id
    }

    /// Adds `child` at the end of the children of `parent` and makes `parent` its parent.
    pub fn append_child(&mut self, parent: NodeId, child: NodeId)
        requires
            old(self).wf(),
            parent < old(self).kids().len(),
            child < old(self).parents().len(),
        ensures
            final(self).wf(),
            final(self).root_id() == old(self).root_id(),
            final(self).free() == old(self).free(),
            final(self).kids() == old(self).kids().update(
                parent as int,
                old(self).kids()[parent as int].push(child),
            ),
            final(self).parents() == old(self).parents().update(child as int, parent),
            old(self).free_detached() && !old(self).free().contains(parent) && !old(self).free().contains(child)
                ==> final(self).free_detached(),
    {
        let mut v = self.take_children(parent);
        v.push(child);
        self.put_children(parent, v);
        self.parent.set(child, parent);
        proof {
            let o = old(self).kids();
            assert(self.kids() =~= o.update(parent as int, o[parent as int].push(child)));
            assert forall|n: int, j: int|
                0 <= n < self.kids().len() && 0 <= j < self.kids()[n].len() implies #[trigger] self.kids()[n][j]
                    < self.parent.len() by {
                if n == parent && j == o[n].len() {
                } else {
                    assert(self.kids()[n][j] == o[n][j]);
                }
            }
        }
    }

    /// The position of the first `x` among the children of `parent`, if any.
    fn position(&self, parent: NodeId, x: NodeId) -> (r: Option<usize>)
        requires
            parent < self.children.len(),
        ensures
            r matches Some(i) ==> self.kids()[parent as int].contains(x) && i == first_index(
                self.kids()[parent as int],
                x,
            ),
            r is None ==> !self.kids()[parent as int].contains(x),
    {
        let cs = &self.children[parent];
        let ghost s = self.kids()[parent as int];
        assert(cs@ == s);
        let mut i: usize = 0;
        while i < cs.len()
            invariant
                i <= cs.len(),
                cs@ == s,
                parent < self.children.len(),
                s == self.kids()[parent as int],
                forall|j: int| 0 <= j < i ==> s[j] != x,
            decreases cs.len() - i,
        {
            if cs[i] == x {
                proof {
                    assert(s.contains(x));
                    lemma_first_index(s, x);
                }
                return Some(i);
            }
            i = i + 1;
        }
        None
    }

    /// Inserts `child` right before the first `sibling` among the children of `parent` and
    /// makes `parent` its parent; `sibling` must be among those children.
    pub fn add_before(&mut self, parent: NodeId, sibling: NodeId, child: NodeId)
        requires
            old(self).wf(),
            parent < old(self).kids().len(),
            child < old(self).parents().len(),
            old(self).kids()[parent as int].contains(sibling),
        ensures
            final(self).wf(),
            final(self).root_id() == old(self).root_id(),
            final(self).free() == old(self).free(),
            final(self).kids() == old(self).kids().update(
                parent as int,
                old(self).kids()[parent as int].insert(
                    first_index(old(self).kids()[parent as int], sibling),
                    child,
                ),
            ),
            final(self).parents() == old(self).parents().update(child as int, parent),
            old(self).free_detached() && !old(self).free().contains(parent) && !old(self).free().contains(child)
                ==> final(self).free_detached(),
    {
        let pos = self.position(parent, sibling).unwrap();
        proof {
            lemma_first_index(self.kids()[parent as int], sibling);
        }
        let mut v = self.take_children(parent);
        v.insert(pos, child);
        self.put_children(parent, v);
        self.parent.set(child, parent);
        proof {
            let o = old(self).kids();
            let cs2 = o[parent as int].insert(pos as int, child);
            assert(self.kids() =~= o.update(parent as int, cs2));
            assert forall|n: int, j: int|
                0 <= n < self.kids().len() && 0 <= j < self.kids()[n].len() implies #[trigger] self.kids()[n][j]
                    < self.parent.len() by {
                if n == parent {
                    if j < pos {
                        assert(cs2[j] == o[n][j]);
                    } else if j > pos {
                        assert(cs2[j] == o[n][j - 1]);
                    }
                } else {
                    assert(self.kids()[n][j] == o[n][j]);
                }
            }
        }
    }

    /// Takes the first `child` out of the children of `parent` and leaves it without
    /// parent; `child` must be among those children.
    pub fn remove_child(&mut self, parent: NodeId, child: NodeId)
        requires
            old(self).wf(),
            parent < old(self).kids().len(),
            child < old(self).parents().len(),
            old(self).kids()[parent as int].contains(child),
        ensures
            final(self).wf(),
            final(self).root_id() == old(self).root_id(),
            final(self).free() == old(self).free(),
            final(self).kids() == old(self).kids().update(
                parent as int,
                old(self).kids()[parent as int].remove(first_index(old(self).kids()[parent as int], child)),
            ),
            final(self).parents() == old(self).parents().update(child as int, child),
            old(self).free_detached() && !old(self).free().contains(parent) ==> final(self).free_detached(),
    {
        let ix = self.position(parent, child).unwrap();
        proof {
            lemma_first_index(self.kids()[parent as int], child);
        }
        let mut v = self.take_children(parent);
        v.remove(ix);
        self.put_children(parent, v);
        self.parent.set(child, child);
        proof {
            let o = old(self).kids();
            let cs2 = o[parent as int].remove(ix as int);
            assert(self.kids() =~= o.update(parent as int, cs2));
            assert forall|n: int, j: int|
                0 <= n < self.kids().len() && 0 <= j < self.kids()[n].len() implies #[trigger] self.kids()[n][j]
                    < self.parent.len() by {
                if n == parent {
                    if j < ix {
                        assert(cs2[j] == o[n][j]);
                    } else {
                        assert(cs2[j] == o[n][j + 1]);
                    }
                } else {
                    assert(self.kids()[n][j] == o[n][j]);
                }
            }
        }
    }

    /// Frees the subtree of `node` breadth-first: `node` and then, in turn, the children of
    /// each freed node join the end of the free list; each freed node loses its children
    /// and becomes its own parent.
    #[verifier::spinoff_prover]
    pub fn free_subtree(&mut self, node: NodeId)
        requires
            old(self).wf(),
            node < old(self).parents().len(),
        ensures
            final(self).wf(),
            final(self).root_id() == old(self).root_id(),
            (final(self).kids(), final(self).free()) == drain(
                old(self).kids(),
                old(self).free().push(node),
                old(self).free().len() as int,
            ),
            final(self).parents().len() == old(self).parents().len(),
            forall|x: int|
                0 <= x < old(self).parents().len() ==> #[trigger] final(self).parents()[x] == if final(self).free().subrange(old(self).free().len() as int, final(self).free().len() as int).contains(x as NodeId) {
                    x as NodeId
                } else {
                    old(self).parents()[x]
                },
            forall|i: int|
                old(self).free().len() <= i < final(self).free().len() ==> #[trigger] final(self).kids()[final(self).free()[i] as int]
                    == Seq::<NodeId>::empty(),
            old(self).free_detached() ==> final(self).free_detached(),
    {
        let ghost o = *self;
        let ghost start = self.free_list.len() as int;
        let mut ix = self.free_list.len();
        self.free_list.push(node);
        proof {
            assert(self.free().subrange(start, ix as int) =~= Seq::<NodeId>::empty());
            assert forall|i: int| 0 <= i < self.free().len() implies #[trigger] self.free()[i] < self.parent.len() by {
                if i < o.free().len() {
                    assert(self.free()[i] == o.free()[i]);
                }
            }
            assert(self.kids() == o.kids());
            assert(self.children.len() == self.parent.len());
            assert(self.wf());
        }
        while ix < self.free_list.len()
            invariant
                self.wf(),
                self.root == o.root,
                self.parent.len() == o.parent.len(),
                0 <= start <= ix <= self.free_list.len(),
                drain(self.kids(), self.free(), ix as int) == drain(o.kids(), o.free().push(node), start),
                forall|x: int|
                    0 <= x < o.parent.len() ==> #[trigger] self.parent@[x] == if self.free().subrange(
                        start,
                        ix as int,
                    ).contains(x as NodeId) {
                        x as NodeId
                    } else {
                        o.parent@[x]
                    },
                forall|i: int| start <= i < ix ==> #[trigger] self.kids()[self.free()[i] as int] == Seq::<NodeId>::empty(),
                o.free_detached() ==> forall|i: int|
                    0 <= i < start ==> self.parents()[#[trigger] self.free()[i] as int] == self.free()[i]
                        && self.kids()[self.free()[i] as int] == Seq::<NodeId>::empty(),
                self.free().subrange(0, start) == o.free(),
            decreases total(self.kids()) + self.free().len() - ix,
        {
            let ghost k0 = self.kids();
            let ghost q0 = self.free();
            let ghost ix0 = ix as int;
            let n = self.free_list[ix];
            ix = ix + 1;
            self.parent.set(n, n);
            let mut cs = self.take_children(n);
            self.free_list.append(&mut cs);
            proof {
                lemma_total_update(k0, n as int);
                assert(self.free() == q0 + k0[n as int]);
                assert(ix as int == ix0 + 1);
                assert(q0[ix0] == n);
                assert(q0.subrange(start, ix as int) =~= q0.subrange(start, ix0).push(n));
                assert(self.free().subrange(start, ix as int) =~= q0.subrange(start, ix as int));
                assert forall|x: int|
                    0 <= x < o.parent.len() implies #[trigger] self.parent@[x] == if self.free().subrange(
                        start,
                        ix as int,
                    ).contains(x as NodeId) {
                        x as NodeId
                    } else {
                        o.parent@[x]
                    } by {
                    if x == n as int {
                        assert(self.free().subrange(start, ix as int)[ix0 - start] == n);
                    }
                }
                assert forall|i: int| 0 <= i < self.free().len() implies #[trigger] self.free()[i] < self.parent.len() by {
                    if i >= q0.len() {
                        assert(self.free()[i] == k0[n as int][i - q0.len()]);
                    }
                }
                assert forall|i: int| start <= i < ix implies #[trigger] self.kids()[self.free()[i] as int] == Seq::<NodeId>::empty() by {
                    assert(self.free()[i] == q0[i]);
                    if i < ix0 {
                        assert(k0[q0[i] as int] == Seq::<NodeId>::empty());
                    }
                }
            }
        }
        proof {
            assert(self.free().subrange(start, ix as int) =~= self.free().subrange(
                o.free().len() as int,
                self.free().len() as int,
            ));
            if o.free_detached() {
                assert forall|i: int| 0 <= i < self.free().len() implies self.parents()[#[trigger] self.free()[i] as int]
                    == self.free()[i] && self.kids()[self.free()[i] as int] == Seq::<NodeId>::empty() by {
                    if i >= start {
                        let x = self.free()[i];
                        assert(self.free().subrange(start, ix as int)[i - start] == x);
                        assert(x < o.parent.len());
                    }
                }
            }
        }
    }

    /// Appending an unparented node that is not yet among the children of `parent` and
    /// removing it again leaves the graph's lists and parents as they were.
    pub proof fn law_append_then_remove(&self, parent: NodeId, child: NodeId)
        requires
            self.wf(),
            parent < self.kids().len(),
            child < self.parents().len(),
            self.parents()[child as int] == child,
            !self.kids()[parent as int].contains(child),
        ensures
            ({
                let k1 = self.kids().update(parent as int, self.kids()[parent as int].push(child));
                k1.update(parent as int, k1[parent as int].remove(first_index(k1[parent as int], child)))
                    == self.kids()
            }),
            self.parents().update(child as int, parent).update(child as int, child) == self.parents(),
    {
        let cs = self.kids()[parent as int];
        let k1 = self.kids().update(parent as int, cs.push(child));
        assert(cs.push(child).contains(child)) by {
            assert(cs.push(child)[cs.len() as int] == child);
        }
        lemma_first_index(cs.push(child), child);
        let i = first_index(cs.push(child), child);
        if i < cs.len() {
            assert(cs[i] == child);
        }
        assert(k1[parent as int].remove(i) =~= cs);
        assert(k1.update(parent as int, cs) =~= self.kids());
        assert(self.parents().update(child as int, parent).update(child as int, child) =~= self.parents());
    }
}

} // verus!
