use vstd::prelude::*;

use crate::tree::{Link, NodeId, Tree};

verus! {

/// Up to `fuel` ancestors of `n`, the parent first.
pub open spec fn ancestor_seq<T>(m: Map<NodeId, Link<T>>, n: NodeId, fuel: nat) -> Seq<NodeId>
    decreases fuel,
{
    if fuel == 0 {
        Seq::empty()
    } else {
        match m[n].parent {
            None => Seq::empty(),
            Some(p) => seq![p] + ancestor_seq(m, p, (fuel - 1) as nat),
        }
    }
}

/// The nodes of the subtrees of `cs`, each node before its children (pre-order).
pub open spec fn pre_forest(kids: Map<NodeId, Seq<NodeId>>, cs: Seq<NodeId>, fuel: nat) -> Seq<
    NodeId,
>
    decreases fuel, cs.len(),
{
    if cs.len() == 0 || fuel == 0 {
        Seq::empty()
    } else {
        seq![cs[0]] + pre_forest(kids, kids[cs[0]], (fuel - 1) as nat) + pre_forest(
            kids,
            cs.drop_first(),
            fuel,
        )
    }
}

/// The nodes of the subtrees of `cs`, each node after its children (post-order).
pub open spec fn post_forest(kids: Map<NodeId, Seq<NodeId>>, cs: Seq<NodeId>, fuel: nat) -> Seq<
    NodeId,
>
    decreases fuel, cs.len(),
{
    if cs.len() == 0 || fuel == 0 {
        Seq::empty()
    } else {
        post_forest(kids, kids[cs[0]], (fuel - 1) as nat) + seq![cs[0]] + post_forest(
            kids,
            cs.drop_first(),
            fuel,
        )
    }
}

/// The ids of a list of (id, link) pairs.
pub open spec fn ids_of<T>(v: Seq<(NodeId, &Link<T>)>) -> Seq<NodeId> {
    v.map_values(|e: (NodeId, &Link<T>)| e.0)
}

/// The ids of a list of nodes handed out for change.
pub open spec fn mut_ids_of<T>(v: Seq<(NodeId, &mut Link<T>)>) -> Seq<NodeId> {
    v.map_values(|e: (NodeId, &mut Link<T>)| e.0)
}

/// The ids of a list of nodes.
fn id_list<T>(v: &Vec<(NodeId, &Link<T>)>) -> (ids: Vec<NodeId>)
    ensures
        ids@ == ids_of(v@),
{
    let mut ids: Vec<NodeId> = Vec::new();
    let mut i: usize = 0;
    while i < v.len()
        invariant
            i <= v.len(),
            ids@ == ids_of(v@.take(i as int)),
        decreases v.len() - i,
    {
        ids.push(v[i].0);
        i = i + 1;
        proof {
            assert(ids@ =~= ids_of(v@.take(i as int)));
        }
    }
    proof {
        assert(v@.take(i as int) =~= v@);
    }
    ids
}

impl<T> Tree<T> {
    /// The ancestors of `n`, the parent first.
    pub open spec fn ancestors_of(&self, n: NodeId) -> Seq<NodeId> {
        ancestor_seq(self@, n, self.depth_of(n))
    }

    /// `r` is a proper ancestor of `x`.
    pub open spec fn is_descendant(&self, x: NodeId, r: NodeId) -> bool {
        self@.contains_key(x) && self.ancestors_of(x).contains(r)
    }

    /// The depth budget of the subtree below `n`.
    pub open spec fn fuel_of(&self, n: NodeId) -> nat {
        (self.height() - self.depth_of(n) - 1) as nat
    }

    /// The proper descendants of `n` in pre-order.
    pub open spec fn pre_order(&self, n: NodeId) -> Seq<NodeId> {
        pre_forest(self.kids_map(), self.children_of(n), self.fuel_of(n))
    }

    /// The proper descendants of `n` in post-order.
    pub open spec fn post_order(&self, n: NodeId) -> Seq<NodeId> {
        post_forest(self.kids_map(), self.children_of(n), self.fuel_of(n))
    }

    /// The siblings that follow `n`, nearest first.
    pub open spec fn next_siblings_of(&self, n: NodeId) -> Seq<NodeId> {
        match self@[n].parent {
            None => Seq::empty(),
            Some(p) => self.children_of(p).subrange(
                self.sibling_index(n) + 1,
                self.children_of(p).len() as int,
            ),
        }
    }

    /// The siblings that precede `n`, nearest first.
    pub open spec fn prev_siblings_of(&self, n: NodeId) -> Seq<NodeId> {
        match self@[n].parent {
            None => Seq::empty(),
            Some(p) => self.children_of(p).subrange(0, self.sibling_index(n)).reverse(),
        }
    }

    /// Every element of the ancestor list is in the tree and shallower than `n`; the list
    /// has `depth_of(n)` elements.
    pub proof fn lemma_ancestors(&self, n: NodeId)
        requires
            self.wf(),
            self@.contains_key(n),
        ensures
            self.ancestors_of(n).len() == self.depth_of(n),
            forall|i: int|
                0 <= i < self.ancestors_of(n).len() ==> self@.contains_key(
                    #[trigger] self.ancestors_of(n)[i],
                ) && self.depth_of(self.ancestors_of(n)[i]) == self.depth_of(n) - 1 - i,
            self@[n].parent is None ==> self.ancestors_of(n) == Seq::<NodeId>::empty(),
            self@[n].parent matches Some(p) ==> self.ancestors_of(n) == seq![p]
                + self.ancestors_of(p) && self@.contains_key(p) && self.depth_of(n)
                == self.depth_of(p) + 1,
        decreases self.depth_of(n),
    {
        assert(self.node_ok(n));
        match self@[n].parent {
            None => {},
            Some(p) => {
                let k = self.sibling_index(n);
                self.lemma_sibling_index(n);
                self.lemma_ancestors(p);
                let a = self.ancestors_of(n);
                let ap = self.ancestors_of(p);
                assert(a == seq![p] + ap);
                assert forall|i: int| 0 <= i < a.len() implies self@.contains_key(#[trigger] a[i])
                    && self.depth_of(a[i]) == self.depth_of(n) - 1 - i by {
                    if i > 0 {
                        assert(a[i] == ap[i - 1]);
                    }
                }
            },
        }
    }

    /// A node is deeper than each of its proper ancestors.
    pub proof fn lemma_descendant_deeper(&self, x: NodeId, r: NodeId)
        requires
            self.wf(),
            self@.contains_key(x),
            self.is_descendant(x, r),
        ensures
            self@.contains_key(r),
            self.depth_of(r) < self.depth_of(x),
            self@[x].parent.is_some(),
            self@[x].parent.unwrap() == r || self.is_descendant(self@[x].parent.unwrap(), r),
    {
        self.lemma_ancestors(x);
        let a = self.ancestors_of(x);
        let i = choose|i: int| 0 <= i < a.len() && a[i] == r;
        assert(a[i] == r);
        match self@[x].parent {
            None => {},
            Some(p) => {
                if i > 0 {
                    assert(self.ancestors_of(p)[i - 1] == r);
                }
            },
        }
    }

    /// The ancestors of `target_id`, the parent first.
    #[verifier::spinoff_prover]
    pub fn ancestors(&self, target_id: NodeId) -> (r: Vec<(NodeId, &Link<T>)>)
        requires
            self.wf(),
            self@.contains_key(target_id),
        ensures
            ids_of(r@) == self.ancestors_of(target_id),
            forall|k: int| 0 <= k < r@.len() ==> *(#[trigger] r@[k]).1 == self@[r@[k].0],
    {
        let mut r: Vec<(NodeId, &Link<T>)> = Vec::new();
        let ghost mut x = target_id;
        let mut next = self.index(target_id).parent;
        proof {
            self.lemma_ancestors(target_id);
        }
        while next.is_some()
            invariant
                self.wf(),
                self@.contains_key(x),
                next == self@[x].parent,
                ids_of(r@) + self.ancestors_of(x) == self.ancestors_of(target_id),
                forall|k: int| 0 <= k < r@.len() ==> *(#[trigger] r@[k]).1 == self@[r@[k].0],
            decreases self.depth_of(x),
        {
            let p = next.unwrap();
            proof {
                self.lemma_ancestors(x);
            }
            let ghost before = r@;
            let l = self.index(p);
            r.push((p, l));
            next = l.parent;
            proof {
                assert(ids_of(r@) =~= ids_of(before).push(p));
                assert(ids_of(r@) + self.ancestors_of(p) =~= ids_of(before) + (seq![p]
                    + self.ancestors_of(p)));
                x = p;
            }
        }
        proof {
            self.lemma_ancestors(x);
            assert(ids_of(r@) + self.ancestors_of(x) =~= ids_of(r@));
        }
        r
    }

    /// Collects the sibling chain that starts at `start`, which is child `k` of `p`.
    #[verifier::spinoff_prover]
    fn sibling_chain(&self, p: NodeId, start: Option<NodeId>, Ghost(k): Ghost<int>) -> (r: Vec<
        (NodeId, &Link<T>),
    >)
        requires
            self.wf(),
            self@.contains_key(p),
            0 <= k <= self.children_of(p).len(),
            start == (if k < self.children_of(p).len() {
                Some(self.children_of(p)[k])
            } else {
                None::<NodeId>
            }),
        ensures
            ids_of(r@) == self.children_of(p).subrange(k, self.children_of(p).len() as int),
            forall|j: int| 0 <= j < r@.len() ==> *(#[trigger] r@[j]).1 == self@[r@[j].0],
    {
        let ghost cs = self.children_of(p);
        let mut r: Vec<(NodeId, &Link<T>)> = Vec::new();
        let mut next = start;
        let ghost mut i = k;
        while next.is_some()
            invariant
                self.wf(),
                self@.contains_key(p),
                cs == self.children_of(p),
                0 <= k <= i <= cs.len(),
                next == (if i < cs.len() {
                    Some(cs[i])
                } else {
                    None::<NodeId>
                }),
                ids_of(r@) == cs.subrange(k, i),
                forall|j: int| 0 <= j < r@.len() ==> *(#[trigger] r@[j]).1 == self@[r@[j].0],
            decreases cs.len() - i,
        {
            let c = next.unwrap();
            proof {
                assert(i < cs.len());
                self.lemma_child_facts(p, i);
            }
            let ghost before = r@;
            let l = self.index(c);
            r.push((c, l));
            next = l.next_sibling;
            proof {
                assert(ids_of(r@) =~= ids_of(before).push(c));
                assert(ids_of(r@) =~= cs.subrange(k, i + 1));
                i = i + 1;
            }
        }
        r
    }

    /// The children of `target_id`, in order.
    pub fn children(&self, target_id: NodeId) -> (r: Vec<(NodeId, &Link<T>)>)
        requires
            self.wf(),
            self@.contains_key(target_id),
        ensures
            ids_of(r@) == self.children_of(target_id),
            forall|j: int| 0 <= j < r@.len() ==> *(#[trigger] r@[j]).1 == self@[r@[j].0],
    {
        proof {
            assert(self.node_ok(target_id));
        }
        let start = self.index(target_id).current.first_child;
        let r = self.sibling_chain(target_id, start, Ghost(0));
        proof {
            assert(self.children_of(target_id).subrange(0, self.children_of(target_id).len() as int)
                =~= self.children_of(target_id));
        }
        r
    }

    /// The siblings after `target_id`, nearest first.
    #[verifier::spinoff_prover]
    pub fn next_siblings(&self, target_id: NodeId) -> (r: Vec<(NodeId, &Link<T>)>)
        requires
            self.wf(),
            self@.contains_key(target_id),
        ensures
            ids_of(r@) == self.next_siblings_of(target_id),
            forall|j: int| 0 <= j < r@.len() ==> *(#[trigger] r@[j]).1 == self@[r@[j].0],
    {
        proof {
            assert(self.node_ok(target_id));
        }
        let l = self.index(target_id);
        match l.parent {
            None => {
                let r: Vec<(NodeId, &Link<T>)> = Vec::new();
                proof {
                    assert(ids_of(r@) =~= Seq::<NodeId>::empty());
                }
                r
            },
            Some(p) => {
                proof {
                    self.lemma_sibling_index(target_id);
                    let k = self.sibling_index(target_id);
                    if k + 1 < self.children_of(p).len() {
                        self.lemma_child_facts(p, k + 1);
                    }
                }
                self.sibling_chain(p, l.next_sibling, Ghost(self.sibling_index(target_id) + 1))
            },
        }
    }

    /// The siblings before `target_id`, nearest first.
    #[verifier::spinoff_prover]
    pub fn prev_siblings(&self, target_id: NodeId) -> (r: Vec<(NodeId, &Link<T>)>)
        requires
            self.wf(),
            self@.contains_key(target_id),
        ensures
            ids_of(r@) == self.prev_siblings_of(target_id),
            forall|j: int| 0 <= j < r@.len() ==> *(#[trigger] r@[j]).1 == self@[r@[j].0],
    {
        proof {
            assert(self.node_ok(target_id));
        }
        let mut r: Vec<(NodeId, &Link<T>)> = Vec::new();
        let l = self.index(target_id);
        match l.parent {
            None => {
                proof {
                    assert(ids_of(r@) =~= Seq::<NodeId>::empty());
                }
                r
            },
            Some(p) => {
                let ghost cs = self.children_of(p);
                let ghost k = self.sibling_index(target_id);
                proof {
                    self.lemma_sibling_index(target_id);
                }
                let mut next = l.prev_sibling;
                let ghost mut i = k;
                while next.is_some()
                    invariant
                        self.wf(),
                        self@.contains_key(p),
                        cs == self.children_of(p),
                        0 <= i <= k < cs.len(),
                        next == (if i > 0 {
                            Some(cs[i - 1])
                        } else {
                            None::<NodeId>
                        }),
                        ids_of(r@) == cs.subrange(i, k).reverse(),
                        forall|j: int| 0 <= j < r@.len() ==> *(#[trigger] r@[j]).1 == self@[r@[j].0],
                    decreases i,
                {
                    let c = next.unwrap();
                    proof {
                        assert(i > 0);
                        self.lemma_child_facts(p, i - 1);
                    }
                    let ghost before = r@;
                    let cl = self.index(c);
                    r.push((c, cl));
                    next = cl.prev_sibling;
                    proof {
                        assert(ids_of(r@) =~= ids_of(before).push(c));
                        assert(ids_of(r@) =~= cs.subrange(i - 1, k).reverse());
                        i = i - 1;
                    }
                }
                r
            },
        }
    }

    /// What follows the subtree of `x` in the pre-order of the proper descendants of `r`.
    pub open spec fn pre_after_f(&self, r: NodeId, x: NodeId, fuel: nat) -> Seq<NodeId>
        decreases fuel,
    {
        if fuel == 0 {
            Seq::empty()
        } else {
            let p = self@[x].parent.unwrap();
            let cs = self.children_of(p);
            pre_forest(
                self.kids_map(),
                cs.subrange(self.sibling_index(x) + 1, cs.len() as int),
                self.fuel_of(p),
            ) + (if p == r {
                Seq::empty()
            } else {
                self.pre_after_f(r, p, (fuel - 1) as nat)
            })
        }
    }

    pub open spec fn pre_after(&self, r: NodeId, x: NodeId) -> Seq<NodeId> {
        self.pre_after_f(r, x, (self.depth_of(x) - self.depth_of(r)) as nat)
    }

    /// What follows `x` in the post-order of the proper descendants of `r`.
    pub open spec fn post_after_f(&self, r: NodeId, x: NodeId, fuel: nat) -> Seq<NodeId>
        decreases fuel,
    {
        if fuel == 0 {
            Seq::empty()
        } else {
            let p = self@[x].parent.unwrap();
            let cs = self.children_of(p);
            post_forest(
                self.kids_map(),
                cs.subrange(self.sibling_index(x) + 1, cs.len() as int),
                self.fuel_of(p),
            ) + (if p == r {
                Seq::empty()
            } else {
                seq![p] + self.post_after_f(r, p, (fuel - 1) as nat)
            })
        }
    }

    pub open spec fn post_after(&self, r: NodeId, x: NodeId) -> Seq<NodeId> {
        self.post_after_f(r, x, (self.depth_of(x) - self.depth_of(r)) as nat)
    }

    /// A child's depth budget is one less than its parent's.
    pub proof fn lemma_child_fuel(&self, n: NodeId, k: int)
        requires
            self.wf(),
            self@.contains_key(n),
            0 <= k < self.children_of(n).len(),
        ensures
            self.fuel_of(n) >= 1,
            self.fuel_of(self.children_of(n)[k]) + 1 == self.fuel_of(n),
    {
        self.lemma_child_facts(n, k);
        let c = self.children_of(n)[k];
        assert(self.node_ok(c));
    }

    pub proof fn lemma_pre_forest_suffix(kids: Map<NodeId, Seq<NodeId>>, cs: Seq<NodeId>, k: int, f: nat)
        requires
            0 <= k < cs.len(),
            f > 0,
        ensures
            pre_forest(kids, cs.subrange(k, cs.len() as int), f) == seq![cs[k]] + pre_forest(
                kids,
                kids[cs[k]],
                (f - 1) as nat,
            ) + pre_forest(kids, cs.subrange(k + 1, cs.len() as int), f),
            post_forest(kids, cs.subrange(k, cs.len() as int), f) == post_forest(
                kids,
                kids[cs[k]],
                (f - 1) as nat,
            ) + seq![cs[k]] + post_forest(kids, cs.subrange(k + 1, cs.len() as int), f),
    {
        let sub = cs.subrange(k, cs.len() as int);
        assert(sub[0] == cs[k]);
        assert(sub.drop_first() =~= cs.subrange(k + 1, cs.len() as int));
    }

    /// One step up: what follows the subtree of `x` consists of its later siblings and then
    /// of what follows its parent.
    #[verifier::spinoff_prover]
    pub proof fn lemma_after_unfold(&self, r: NodeId, x: NodeId)
        requires
            self.wf(),
            self@.contains_key(x),
            self.is_descendant(x, r),
        ensures
            ({
                let p = self@[x].parent.unwrap();
                let cs = self.children_of(p);
                let rest = cs.subrange(self.sibling_index(x) + 1, cs.len() as int);
                &&& self.pre_after(r, x) == pre_forest(self.kids_map(), rest, self.fuel_of(p)) + (
                if p == r {
                    Seq::empty()
                } else {
                    self.pre_after(r, p)
                })
                &&& self.post_after(r, x) == post_forest(self.kids_map(), rest, self.fuel_of(p))
                    + (if p == r {
                    Seq::empty()
                } else {
                    seq![p] + self.post_after(r, p)
                })
            }),
    {
        self.lemma_descendant_deeper(x, r);
        self.lemma_ancestors(x);
    }

    /// `x` is a proper descendant of its parent.
    pub proof fn lemma_parent_is_ancestor(&self, x: NodeId)
        requires
            self.wf(),
            self@.contains_key(x),
            self@[x].parent.is_some(),
        ensures
            self.is_descendant(x, self@[x].parent.unwrap()),
    {
        self.lemma_ancestors(x);
        assert(self.ancestors_of(x)[0] == self@[x].parent.unwrap());
    }

    /// A child of a descendant of `r` is a descendant of `r`.
    pub proof fn lemma_descendant_step(&self, x: NodeId, r: NodeId)
        requires
            self.wf(),
            self@.contains_key(x),
            self@[x].parent.is_some(),
            self@[x].parent.unwrap() == r || self.is_descendant(self@[x].parent.unwrap(), r),
        ensures
            self.is_descendant(x, r),
    {
        self.lemma_ancestors(x);
        let p = self@[x].parent.unwrap();
        let a = self.ancestors_of(x);
        if p == r {
            assert(a[0] == r);
        } else {
            let ap = self.ancestors_of(p);
            let i = choose|i: int| 0 <= i < ap.len() && ap[i] == r;
            assert(a[i + 1] == r);
        }
    }

    /// Descent is transitive.
    pub proof fn lemma_descendant_trans(&self, x: NodeId, y: NodeId, r: NodeId)
        requires
            self.wf(),
            self@.contains_key(x),
            self.is_descendant(x, y),
            self.is_descendant(y, r),
        ensures
            self.is_descendant(x, r),
        decreases self.depth_of(x),
    {
        self.lemma_descendant_deeper(x, y);
        let p = self@[x].parent.unwrap();
        self.lemma_ancestors(x);
        if p == y {
            self.lemma_descendant_step(x, r);
        } else {
            self.lemma_descendant_trans(p, y, r);
            self.lemma_descendant_step(x, r);
        }
    }

    /// A later sibling starts what follows the subtree of `x`.
    #[verifier::spinoff_prover]
    pub proof fn lemma_after_next_sibling(&self, r: NodeId, x: NodeId)
        requires
            self.wf(),
            self@.contains_key(x),
            self.is_descendant(x, r),
            self@[x].next_sibling.is_some(),
        ensures
            ({
                let s = self@[x].next_sibling.unwrap();
                &&& self@.contains_key(s)
                &&& self.is_descendant(s, r)
                &&& self@[s].parent == self@[x].parent
                &&& self.pre_after(r, x) == seq![s] + self.pre_order(s) + self.pre_after(r, s)
                &&& self.post_after(r, x) == self.post_order(s) + seq![s] + self.post_after(r, s)
            }),
    {
        self.lemma_descendant_deeper(x, r);
        let p = self@[x].parent.unwrap();
        let cs = self.children_of(p);
        self.lemma_sibling_index(x);
        let k = self.sibling_index(x);
        assert(self.node_ok(p));
        let s = cs[k + 1];
        self.lemma_child_facts(p, k + 1);
        self.lemma_child_fuel(p, k + 1);
        assert(self.node_ok(s));
        self.lemma_sibling_index(s);
        assert(self.sibling_index(s) == k + 1);
        self.lemma_descendant_step(s, r);
        self.lemma_after_unfold(r, x);
        self.lemma_after_unfold(r, s);
        Self::lemma_pre_forest_suffix(self.kids_map(), cs, k + 1, self.fuel_of(p));
    }

    /// The first child starts the pre-order below `x` and its later siblings follow it.
    #[verifier::spinoff_prover]
    pub proof fn lemma_pre_first_child(&self, r: NodeId, x: NodeId)
        requires
            self.wf(),
            self@.contains_key(x),
            x == r || self.is_descendant(x, r),
            self.children_of(x).len() > 0,
        ensures
            ({
                let c = self.children_of(x)[0];
                &&& self@.contains_key(c)
                &&& self.is_descendant(c, r)
                &&& self@[x].current.first_child == Some(c)
                &&& self.pre_order(x) + (if x == r {
                    Seq::empty()
                } else {
                    self.pre_after(r, x)
                }) == seq![c] + self.pre_order(c) + self.pre_after(r, c)
            }),
    {
        let cs = self.children_of(x);
        assert(self.node_ok(x));
        let c = cs[0];
        self.lemma_child_facts(x, 0);
        self.lemma_child_fuel(x, 0);
        self.lemma_sibling_index(c);
        assert(self.sibling_index(c) == 0);
        self.lemma_descendant_step(c, r);
        self.lemma_after_unfold(r, c);
        Self::lemma_pre_forest_suffix(self.kids_map(), cs, 0, self.fuel_of(x));
        assert(cs.subrange(0, cs.len() as int) =~= cs);
    }

    /// The next node in pre-order after `node_id`, within the subtree of `root_id`.
    #[verifier::spinoff_prover]
    fn pre_ordered_next_descendant(&self, root_id: NodeId, node_id: NodeId) -> (res: Option<
        NodeId,
    >)
        requires
            self.wf(),
            self@.contains_key(node_id),
            self.is_descendant(node_id, root_id),
        ensures
            match res {
                Some(y) => {
                    &&& self@.contains_key(y)
                    &&& self.is_descendant(y, root_id)
                    &&& self.pre_order(node_id) + self.pre_after(root_id, node_id) == seq![y]
                        + self.pre_order(y) + self.pre_after(root_id, y)
                },
                None => self.pre_order(node_id) + self.pre_after(root_id, node_id) == Seq::<
                    NodeId,
                >::empty(),
            },
    {
        let ghost target = self.pre_order(node_id) + self.pre_after(root_id, node_id);
        proof {
            assert(self.node_ok(node_id));
            self.lemma_descendant_deeper(node_id, root_id);
        }
        let l = self.index(node_id);
        if let Some(first_child) = l.current.first_child {
            proof {
                self.lemma_pre_first_child(root_id, node_id);
            }
            return Some(first_child);
        }
        proof {
            assert(self.pre_order(node_id) =~= Seq::<NodeId>::empty());
            assert(target =~= self.pre_after(root_id, node_id));
        }
        if let Some(next_sibling) = l.next_sibling {
            proof {
                self.lemma_after_next_sibling(root_id, node_id);
            }
            return Some(next_sibling);
        }
        proof {
            self.lemma_after_unfold(root_id, node_id);
            self.lemma_sibling_index(node_id);
            let p = l.parent.unwrap();
            let cs = self.children_of(p);
            let k = self.sibling_index(node_id);
            assert(cs.subrange(k + 1, cs.len() as int) =~= Seq::<NodeId>::empty());
        }
        let mut z = l.parent.unwrap();
        loop
            invariant
                self.wf(),
                self@.contains_key(z),
                z == root_id || self.is_descendant(z, root_id),
                target == self.pre_order(node_id) + self.pre_after(root_id, node_id),
                target == (if z == root_id {
                    Seq::<NodeId>::empty()
                } else {
                    self.pre_after(root_id, z)
                }),
            decreases self.depth_of(z),
        {
            if z == root_id {
                return None;
            }
            let zl = self.index(z);
            if let Some(sibling_id) = zl.next_sibling {
                proof {
                    self.lemma_after_next_sibling(root_id, z);
                }
                return Some(sibling_id);
            }
            proof {
                self.lemma_descendant_deeper(z, root_id);
                self.lemma_after_unfold(root_id, z);
                self.lemma_sibling_index(z);
                assert(self.node_ok(z));
                let p = zl.parent.unwrap();
                let cs = self.children_of(p);
                let k = self.sibling_index(z);
                assert(cs.subrange(k + 1, cs.len() as int) =~= Seq::<NodeId>::empty());
                self.lemma_ancestors(z);
            }
            z = zl.parent.unwrap();
        }
    }

    /// The proper descendants of `target_id`, each before its children.
    pub fn pre_ordered_descendants(&self, target_id: NodeId) -> (r: Vec<(NodeId, &Link<T>)>)
        requires
            self.wf(),
            self@.contains_key(target_id),
        ensures
            ids_of(r@) == self.pre_order(target_id),
            forall|j: int| 0 <= j < r@.len() ==> *(#[trigger] r@[j]).1 == self@[r@[j].0],
    {
        let r: Vec<(NodeId, &Link<T>)> = Vec::new();
        self.pre_walk(target_id, r)
    }

    /// `target_id` and then its proper descendants, each node before its children.
    pub fn walk(&self, target_id: NodeId) -> (r: Vec<(NodeId, &Link<T>)>)
        requires
            self.wf(),
            self@.contains_key(target_id),
        ensures
            ids_of(r@) == seq![target_id] + self.pre_order(target_id),
            forall|j: int| 0 <= j < r@.len() ==> *(#[trigger] r@[j]).1 == self@[r@[j].0],
    {
        let mut r: Vec<(NodeId, &Link<T>)> = Vec::new();
        r.push((target_id, self.index(target_id)));
        proof {
            assert(ids_of(r@) =~= seq![target_id]);
        }
        self.pre_walk(target_id, r)
    }

    /// Appends the proper descendants of `root_id` in pre-order to `r`.
    #[verifier::spinoff_prover]
    fn pre_walk<'a>(&'a self, root_id: NodeId, r: Vec<(NodeId, &'a Link<T>)>) -> (res: Vec<
        (NodeId, &'a Link<T>),
    >)
        requires
            self.wf(),
            self@.contains_key(root_id),
            forall|j: int| 0 <= j < r@.len() ==> *(#[trigger] r@[j]).1 == self@[r@[j].0],
        ensures
            ids_of(res@) == ids_of(r@) + self.pre_order(root_id),
            forall|j: int| 0 <= j < res@.len() ==> *(#[trigger] res@[j]).1 == self@[res@[j].0],
    {
        let mut r = r;
        let ghost base = ids_of(r@);
        proof {
            assert(self.node_ok(root_id));
            if self.children_of(root_id).len() > 0 {
                self.lemma_pre_first_child(root_id, root_id);
            } else {
                assert(self.pre_order(root_id) =~= Seq::<NodeId>::empty());
            }
        }
        let mut next = self.index(root_id).current.first_child;
        while next.is_some()
            invariant
                self.wf(),
                self@.contains_key(root_id),
                forall|j: int| 0 <= j < r@.len() ==> *(#[trigger] r@[j]).1 == self@[r@[j].0],
                ids_of(r@).len() >= base.len(),
                match next {
                    Some(c) => self@.contains_key(c) && self.is_descendant(c, root_id) && ids_of(r@)
                        + (seq![c] + self.pre_order(c) + self.pre_after(root_id, c)) == base
                        + self.pre_order(root_id),
                    None => ids_of(r@) == base + self.pre_order(root_id),
                },
            decreases base.len() + self.pre_order(root_id).len() - ids_of(r@).len(),
        {
            let c = next.unwrap();
            let ghost before = r@;
            r.push((c, self.index(c)));
            proof {
                assert(ids_of(r@) =~= ids_of(before).push(c));
                assert(ids_of(before) + (seq![c] + self.pre_order(c) + self.pre_after(root_id, c))
                    =~= ids_of(r@) + (self.pre_order(c) + self.pre_after(root_id, c)));
            }
            next = self.pre_ordered_next_descendant(root_id, c);
            proof {
                match next {
                    Some(y) => {
                        assert(ids_of(r@) + (seq![y] + self.pre_order(y) + self.pre_after(root_id, y))
                            =~= ids_of(r@) + (self.pre_order(c) + self.pre_after(root_id, c)));
                    },
                    None => {
                        assert(ids_of(r@) =~= ids_of(r@) + (self.pre_order(c) + self.pre_after(root_id, c)));
                    },
                }
            }
        }
        r
    }

    /// What follows a deep node up to `r` is what follows it up to an intermediate ancestor
    /// `s`, then `s`, then what follows `s`.
    #[verifier::spinoff_prover]
    pub proof fn lemma_post_after_split(&self, r: NodeId, s: NodeId, g: NodeId)
        requires
            self.wf(),
            self@.contains_key(g),
            self.is_descendant(g, s),
            self.is_descendant(s, r),
        ensures
            self.post_after(r, g) == self.post_after(s, g) + seq![s] + self.post_after(r, s),
        decreases self.depth_of(g),
    {
        self.lemma_descendant_deeper(g, s);
        self.lemma_descendant_deeper(s, r);
        self.lemma_descendant_trans(g, s, r);
        self.lemma_after_unfold(r, g);
        self.lemma_after_unfold(s, g);
        let p = self@[g].parent.unwrap();
        self.lemma_ancestors(g);
        if p != s {
            self.lemma_descendant_deeper(p, s);
            self.lemma_post_after_split(r, s, p);
        }
    }

    /// The deepest node reached from `node_id` by first children, where it has children.
    #[verifier::spinoff_prover]
    fn grandest_child(&self, node_id: NodeId) -> (res: Option<NodeId>)
        requires
            self.wf(),
            self@.contains_key(node_id),
        ensures
            match res {
                None => self.children_of(node_id).len() == 0,
                Some(g) => {
                    &&& self@.contains_key(g)
                    &&& self.is_descendant(g, node_id)
                    &&& self.children_of(g).len() == 0
                    &&& self.post_order(node_id) == seq![g] + self.post_after(node_id, g)
                },
            },
    {
        proof {
            assert(self.node_ok(node_id));
        }
        let mut next = self.index(node_id).current.first_child;
        if next.is_none() {
            return None;
        }
        let mut c = next.unwrap();
        proof {
            let cs = self.children_of(node_id);
            self.lemma_child_facts(node_id, 0);
            self.lemma_child_fuel(node_id, 0);
            self.lemma_sibling_index(c);
            self.lemma_descendant_step(c, node_id);
            self.lemma_after_unfold(node_id, c);
            Self::lemma_pre_forest_suffix(self.kids_map(), cs, 0, self.fuel_of(node_id));
            assert(cs.subrange(0, cs.len() as int) =~= cs);
        }
        loop
            invariant
                self.wf(),
                self@.contains_key(node_id),
                self@.contains_key(c),
                self.is_descendant(c, node_id),
                self.post_order(node_id) == self.post_order(c) + seq![c] + self.post_after(
                    node_id,
                    c,
                ),
            decreases self.height() - self.depth_of(c),
        {
            proof {
                assert(self.node_ok(c));
            }
            match self.index(c).current.first_child {
                None => {
                    proof {
                        assert(self.post_order(c) =~= Seq::<NodeId>::empty());
                        assert(self.post_order(node_id) =~= seq![c] + self.post_after(node_id, c));
                    }
                    return Some(c);
                },
                Some(c2) => {
                    proof {
                        let cs = self.children_of(c);
                        self.lemma_child_facts(c, 0);
                        self.lemma_child_fuel(c, 0);
                        self.lemma_sibling_index(c2);
                        self.lemma_descendant_step(c2, node_id);
                        self.lemma_after_unfold(node_id, c2);
                        Self::lemma_pre_forest_suffix(self.kids_map(), cs, 0, self.fuel_of(c));
                        assert(cs.subrange(0, cs.len() as int) =~= cs);
                        assert(self.node_ok(c2));
                    }
                    c = c2;
                },
            }
        }
    }

    /// The next node in post-order after `node_id`, within the subtree of `root_id`.
    #[verifier::spinoff_prover]
    fn post_ordered_next_descendant(&self, root_id: NodeId, node_id: NodeId) -> (res: Option<
        NodeId,
    >)
        requires
            self.wf(),
            self@.contains_key(node_id),
            self.is_descendant(node_id, root_id),
        ensures
            match res {
                Some(y) => {
                    &&& self@.contains_key(y)
                    &&& self.is_descendant(y, root_id)
                    &&& self.post_after(root_id, node_id) == seq![y] + self.post_after(root_id, y)
                },
                None => self.post_after(root_id, node_id) == Seq::<NodeId>::empty(),
            },
    {
        let l = self.index(node_id);
        proof {
            self.lemma_descendant_deeper(node_id, root_id);
        }
        if let Some(next_sibling_id) = l.next_sibling {
            proof {
                self.lemma_after_next_sibling(root_id, node_id);
            }
            if let Some(grandest_child_id) = self.grandest_child(next_sibling_id) {
                proof {
                    self.lemma_post_after_split(root_id, next_sibling_id, grandest_child_id);
                    self.lemma_descendant_trans(grandest_child_id, next_sibling_id, root_id);
                }
                Some(grandest_child_id)
            } else {
                proof {
                    assert(self.post_order(next_sibling_id) =~= Seq::<NodeId>::empty());
                }
                Some(next_sibling_id)
            }
        } else {
            proof {
                self.lemma_after_unfold(root_id, node_id);
                self.lemma_sibling_index(node_id);
                let p = l.parent.unwrap();
                let cs = self.children_of(p);
                let k = self.sibling_index(node_id);
                assert(self.node_ok(p));
                assert(cs.subrange(k + 1, cs.len() as int) =~= Seq::<NodeId>::empty());
            }
            let p = l.parent.unwrap();
            if p != root_id {
                Some(p)
            } else {
                None
            }
        }
    }

    /// The proper descendants of `target_id`, each after its children.
    #[verifier::spinoff_prover]
    pub fn post_ordered_descendants(&self, target_id: NodeId) -> (r: Vec<(NodeId, &Link<T>)>)
        requires
            self.wf(),
            self@.contains_key(target_id),
        ensures
            ids_of(r@) == self.post_order(target_id),
            forall|j: int| 0 <= j < r@.len() ==> *(#[trigger] r@[j]).1 == self@[r@[j].0],
    {
        let mut r: Vec<(NodeId, &Link<T>)> = Vec::new();
        let mut next = self.grandest_child(target_id);
        proof {
            if next.is_none() {
                assert(self.post_order(target_id) =~= Seq::<NodeId>::empty());
            }
        }
        while next.is_some()
            invariant
                self.wf(),
                self@.contains_key(target_id),
                forall|j: int| 0 <= j < r@.len() ==> *(#[trigger] r@[j]).1 == self@[r@[j].0],
                match next {
                    Some(c) => self@.contains_key(c) && self.is_descendant(c, target_id) && ids_of(
                        r@,
                    ) + (seq![c] + self.post_after(target_id, c)) == self.post_order(target_id),
                    None => ids_of(r@) == self.post_order(target_id),
                },
            decreases self.post_order(target_id).len() - ids_of(r@).len(),
        {
            let c = next.unwrap();
            let ghost before = r@;
            r.push((c, self.index(c)));
            proof {
                assert(ids_of(r@) =~= ids_of(before).push(c));
                assert(ids_of(before) + (seq![c] + self.post_after(target_id, c)) =~= ids_of(r@)
                    + self.post_after(target_id, c));
            }
            next = self.post_ordered_next_descendant(target_id, c);
            proof {
                match next {
                    Some(y) => {
                        assert(ids_of(r@) + (seq![y] + self.post_after(target_id, y)) =~= ids_of(r@)
                            + self.post_after(target_id, c));
                    },
                    None => {
                        assert(ids_of(r@) =~= ids_of(r@) + self.post_after(target_id, c));
                    },
                }
            }
        }
        r
    }

    /// Two ancestors of one node at the same depth are the same node.
    #[verifier::spinoff_prover]
    pub proof fn lemma_same_depth_ancestors(&self, y: NodeId, a: NodeId, b: NodeId)
        requires
            self.wf(),
            self@.contains_key(y),
            self.is_descendant(y, a),
            self.is_descendant(y, b),
            self.depth_of(a) == self.depth_of(b),
        ensures
            a == b,
    {
        self.lemma_ancestors(y);
        let an = self.ancestors_of(y);
        let ia = choose|i: int| 0 <= i < an.len() && an[i] == a;
        let ib = choose|i: int| 0 <= i < an.len() && an[i] == b;
        assert(an[ia] == a && an[ib] == b);
    }

    /// A proper descendant of `c` is a child of `c` or below one.
    #[verifier::spinoff_prover]
    pub proof fn lemma_below_some_child(&self, y: NodeId, c: NodeId)
        requires
            self.wf(),
            self@.contains_key(y),
            self.is_descendant(y, c),
        ensures
            exists|i: int|
                0 <= i < self.children_of(c).len() && (y == self.children_of(c)[i]
                    || self.is_descendant(y, #[trigger] self.children_of(c)[i])),
        decreases self.depth_of(y),
    {
        self.lemma_descendant_deeper(y, c);
        let p = self@[y].parent.unwrap();
        self.lemma_ancestors(y);
        if p == c {
            self.lemma_sibling_index(y);
            let i = self.sibling_index(y);
            assert(self.children_of(c)[i] == y);
        } else {
            self.lemma_below_some_child(p, c);
            let i = choose|i: int|
                0 <= i < self.children_of(c).len() && (p == self.children_of(c)[i]
                    || self.is_descendant(p, #[trigger] self.children_of(c)[i]));
            self.lemma_descendant_step(y, self.children_of(c)[i]);
        }
    }

    pub proof fn lemma_no_dup_concat(a: Seq<NodeId>, b: Seq<NodeId>)
        requires
            a.no_duplicates(),
            b.no_duplicates(),
            forall|y: NodeId| a.contains(y) ==> !b.contains(y),
        ensures
            (a + b).no_duplicates(),
    {
        let ab = a + b;
        assert forall|i: int, k: int| 0 <= i < ab.len() && 0 <= k < ab.len() && i != k implies ab[i] != ab[k] by {
            if i < a.len() && k >= a.len() {
                assert(a.contains(ab[i]));
                assert(b[k - a.len()] == ab[k]);
            } else if k < a.len() && i >= a.len() {
                assert(a.contains(ab[k]));
                assert(b[i - a.len()] == ab[i]);
            } else if i >= a.len() {
                assert(ab[i] == b[i - a.len()] && ab[k] == b[k - a.len()]);
            }
        }
    }

    /// The traversals of the subtrees of the children of `n` from position `j` on: both
    /// orders hold the same nodes, none twice, and these are exactly those children and
    /// their proper descendants.
    #[verifier::spinoff_prover]
    pub proof fn lemma_forest_facts(&self, n: NodeId, j: int)
        requires
            self.wf(),
            self@.contains_key(n),
            0 <= j <= self.children_of(n).len(),
        ensures
            ({
                let cs = self.children_of(n);
                let l = cs.subrange(j, cs.len() as int);
                let pre = pre_forest(self.kids_map(), l, self.fuel_of(n));
                let post = post_forest(self.kids_map(), l, self.fuel_of(n));
                &&& pre.no_duplicates()
                &&& post.no_duplicates()
                &&& forall|y: NodeId|
                    #![trigger pre.contains(y)]
                    #![trigger post.contains(y)]
                    pre.contains(y) <==> post.contains(y)
                &&& forall|y: NodeId|
                    #![trigger post.contains(y)]
                    post.contains(y) <==> (exists|i: int|
                        j <= i < cs.len() && (y == cs[i] || self.is_descendant(
                            y,
                            #[trigger] cs[i],
                        )))
                &&& forall|y: NodeId|
                    #![trigger post.contains(y)]
                    post.contains(y) ==> self@.contains_key(y) && self.is_descendant(y, n)
            }),
        decreases self.fuel_of(n), self.children_of(n).len() - j,
    {
        let cs = self.children_of(n);
        let l = cs.subrange(j, cs.len() as int);
        let kids = self.kids_map();
        let f = self.fuel_of(n);
        let pre = pre_forest(kids, l, f);
        let post = post_forest(kids, l, f);
        assert(self.node_ok(n));
        if j == cs.len() {
            assert(l.len() == 0);
            assert(pre =~= Seq::<NodeId>::empty());
            assert(post =~= Seq::<NodeId>::empty());
        } else {
            let c = cs[j];
            self.lemma_child_facts(n, j);
            self.lemma_child_fuel(n, j);
            Self::lemma_pre_forest_suffix(kids, cs, j, f);
            self.lemma_forest_facts(c, 0);
            self.lemma_forest_facts(n, j + 1);
            let cc = self.children_of(c);
            assert(cc.subrange(0, cc.len() as int) =~= cc);
            let pre_c = self.pre_order(c);
            let post_c = self.post_order(c);
            let rest = cs.subrange(j + 1, cs.len() as int);
            let pre_r = pre_forest(kids, rest, f);
            let post_r = post_forest(kids, rest, f);
            self.lemma_parent_is_ancestor(c);
            // the subtree of c is disjoint from c and from the later siblings' subtrees
            assert forall|y: NodeId| post_c.contains(y) implies y != c && !post_r.contains(y) by {
                self.lemma_descendant_deeper(y, c);
                if post_r.contains(y) {
                    let i = choose|i: int|
                        j + 1 <= i < cs.len() && (y == cs[i] || self.is_descendant(y, #[trigger] cs[i]));
                    self.lemma_child_facts(n, i);
                    if y == cs[i] {
                    } else {
                        self.lemma_same_depth_ancestors(y, c, cs[i]);
                    }
                }
            }
            assert(!post_r.contains(c)) by {
                if post_r.contains(c) {
                    let i = choose|i: int|
                        j + 1 <= i < cs.len() && (c == cs[i] || self.is_descendant(c, #[trigger] cs[i]));
                    self.lemma_child_facts(n, i);
                    if c != cs[i] {
                        self.lemma_descendant_deeper(c, cs[i]);
                    }
                }
            }
            Self::lemma_no_dup_concat(post_c, seq![c]);
            Self::lemma_no_dup_concat(post_c + seq![c], post_r);
            Self::lemma_no_dup_concat(seq![c], pre_c);
            Self::lemma_no_dup_concat(seq![c] + pre_c, pre_r);
            assert forall|y: NodeId|
                #![trigger pre.contains(y)]
                #![trigger post.contains(y)]
                pre.contains(y) <==> post.contains(y) by {
                if pre.contains(y) {
                    let i = choose|i: int| 0 <= i < pre.len() && pre[i] == y;
                    if i == 0 {
                        assert(post[post_c.len() as int] == y);
                    } else if i < 1 + pre_c.len() {
                        assert(pre_c[i - 1] == y);
                        assert(pre_c.contains(y));
                        assert(post_c.contains(y));
                        let k = choose|k: int| 0 <= k < post_c.len() && post_c[k] == y;
                        assert(post[k] == y);
                    } else {
                        assert(pre_r[i - 1 - pre_c.len()] == y);
                        assert(pre_r.contains(y));
                        assert(post_r.contains(y));
                        let k = choose|k: int| 0 <= k < post_r.len() && post_r[k] == y;
                        assert(post[post_c.len() + 1 + k] == y);
                    }
                }
                if post.contains(y) {
                    let i = choose|i: int| 0 <= i < post.len() && post[i] == y;
                    if i < post_c.len() {
                        assert(post_c[i] == y);
                        assert(post_c.contains(y));
                        assert(pre_c.contains(y));
                        let k = choose|k: int| 0 <= k < pre_c.len() && pre_c[k] == y;
                        assert(pre[1 + k] == y);
                    } else if i == post_c.len() {
                        assert(pre[0] == y);
                    } else {
                        assert(post_r[i - post_c.len() - 1] == y);
                        assert(post_r.contains(y));
                        assert(pre_r.contains(y));
                        let k = choose|k: int| 0 <= k < pre_r.len() && pre_r[k] == y;
                        assert(pre[1 + pre_c.len() + k] == y);
                    }
                }
            }
            assert forall|y: NodeId|
                #![trigger post.contains(y)]
                post.contains(y) <==> (exists|i: int|
                    j <= i < cs.len() && (y == cs[i] || self.is_descendant(y, #[trigger] cs[i]))) by {
                if post.contains(y) {
                    let i = choose|i: int| 0 <= i < post.len() && post[i] == y;
                    if i < post_c.len() {
                        assert(post_c[i] == y);
                        assert(post_c.contains(y));
                        assert(y == cs[j] || self.is_descendant(y, cs[j]));
                    } else if i == post_c.len() {
                        assert(y == cs[j]);
                    } else {
                        assert(post_r[i - post_c.len() - 1] == y);
                        assert(post_r.contains(y));
                    }
                }
                if exists|i: int| j <= i < cs.len() && (y == cs[i] || self.is_descendant(y, #[trigger] cs[i])) {
                    let i = choose|i: int| j <= i < cs.len() && (y == cs[i] || self.is_descendant(y, #[trigger] cs[i]));
                    if i == j {
                        if y == c {
                            assert(post[post_c.len() as int] == y);
                        } else {
                            self.lemma_below_some_child(y, c);
                            assert(post_c.contains(y));
                            let k = choose|k: int| 0 <= k < post_c.len() && post_c[k] == y;
                            assert(post[k] == y);
                        }
                    } else {
                        assert(post_r.contains(y));
                        let k = choose|k: int| 0 <= k < post_r.len() && post_r[k] == y;
                        assert(post[post_c.len() + 1 + k] == y);
                    }
                }
            }
            assert forall|y: NodeId| #![trigger post.contains(y)] post.contains(y) implies self@.contains_key(y) && self.is_descendant(y, n) by {
                let i = choose|i: int| 0 <= i < post.len() && post[i] == y;
                if i < post_c.len() {
                    assert(post_c[i] == y);
                    assert(post_c.contains(y));
                    self.lemma_descendant_trans(y, c, n);
                } else if i == post_c.len() {
                } else {
                    assert(post_r[i - post_c.len() - 1] == y);
                    assert(post_r.contains(y));
                }
            }
        }
    }

    /// The proper descendants of `n`: both orders list exactly them, each once.
    #[verifier::spinoff_prover]
    pub proof fn lemma_order_members(&self, n: NodeId)
        requires
            self.wf(),
            self@.contains_key(n),
        ensures
            self.pre_order(n).no_duplicates(),
            self.post_order(n).no_duplicates(),
            forall|y: NodeId|
                #![trigger self.pre_order(n).contains(y)]
                #![trigger self.post_order(n).contains(y)]
                #![trigger self.is_descendant(y, n)]
                (self.pre_order(n).contains(y) <==> self.is_descendant(y, n))
                    && (self.post_order(n).contains(y) <==> self.is_descendant(y, n)),
            forall|y: NodeId|
                #![trigger self.post_order(n).contains(y)]
                self.post_order(n).contains(y) ==> self@.contains_key(y),
    {
        self.lemma_forest_facts(n, 0);
        let cs = self.children_of(n);
        assert(cs.subrange(0, cs.len() as int) =~= cs);
        assert forall|y: NodeId| #[trigger] self.is_descendant(y, n) implies self.post_order(n).contains(y) by {
            self.lemma_below_some_child(y, n);
        }
    }


    /// The siblings around a node are distinct nodes of the tree.
    proof fn lemma_sibling_ids(t: Self, n: NodeId)
        requires
            t.wf(),
            t@.contains_key(n),
        ensures
            t.next_siblings_of(n).no_duplicates(),
            t.prev_siblings_of(n).no_duplicates(),
            forall|i: int| 0 <= i < t.next_siblings_of(n).len() ==> t@.contains_key(#[trigger] t.next_siblings_of(n)[i]),
            forall|i: int| 0 <= i < t.prev_siblings_of(n).len() ==> t@.contains_key(#[trigger] t.prev_siblings_of(n)[i]),
    {
        if let Some(p) = t@[n].parent {
            t.lemma_sibling_index(n);
            let cs = t.children_of(p);
            let k = t.sibling_index(n);
            assert(t.node_ok(p));
            let nx = t.next_siblings_of(n);
            let pv = t.prev_siblings_of(n);
            assert forall|i: int| 0 <= i < nx.len() implies t@.contains_key(#[trigger] nx[i]) by {
                assert(nx[i] == cs[k + 1 + i]);
                t.lemma_child_facts(p, k + 1 + i);
            }
            assert forall|a: int, b: int| 0 <= a < nx.len() && 0 <= b < nx.len() && a != b implies nx[a] != nx[b] by {
                assert(nx[a] == cs[k + 1 + a] && nx[b] == cs[k + 1 + b]);
            }
            assert forall|i: int| 0 <= i < pv.len() implies t@.contains_key(#[trigger] pv[i]) by {
                assert(pv[i] == cs[k - 1 - i]);
                t.lemma_child_facts(p, k - 1 - i);
            }
            assert forall|a: int, b: int| 0 <= a < pv.len() && 0 <= b < pv.len() && a != b implies pv[a] != pv[b] by {
                assert(pv[a] == cs[k - 1 - a] && pv[b] == cs[k - 1 - b]);
            }
        }
    }

    /// The children, in order, each open to change.
    pub fn children_mut(&mut self, target_id: NodeId) -> (r: Vec<(NodeId, &mut Link<T>)>)
        requires
            old(self).wf(),
            old(self)@.contains_key(target_id),
        ensures
            mut_ids_of(r@) == old(self).children_of(target_id),
            forall|k: int| 0 <= k < r@.len() ==> *(#[trigger] r@[k]).1 == old(self)@[r@[k].0],
            final(self)@.dom() == old(self)@.dom(),
            forall|k: int| 0 <= k < r@.len() ==> final(self)@[r@[k].0] == *final((#[trigger] r@[k]).1),
            forall|n: NodeId|
                old(self)@.contains_key(n) && !old(self).children_of(target_id).contains(n) ==> #[trigger] final(self)@[n]
                    == old(self)@[n],
            final(self).kids_map() == old(self).kids_map(),
    {
        let ids = id_list(&self.children(target_id));
        proof {
            let ghost s = self.children_of(target_id);
            assert(ids@ == s);
            assert(self.node_ok(target_id));
            assert forall|i: int| 0 <= i < s.len() implies self@.contains_key(#[trigger] s[i]) by {
                self.lemma_child_facts(target_id, i);
            }
        }
        let r = self.links_mut(ids);
        proof {
            assert(mut_ids_of(r@) =~= ids@);
        }
        r
    }

    /// The ancestors, the parent first, each open to change.
    pub fn ancestors_mut(&mut self, target_id: NodeId) -> (r: Vec<(NodeId, &mut Link<T>)>)
        requires
            old(self).wf(),
            old(self)@.contains_key(target_id),
        ensures
            mut_ids_of(r@) == old(self).ancestors_of(target_id),
            forall|k: int| 0 <= k < r@.len() ==> *(#[trigger] r@[k]).1 == old(self)@[r@[k].0],
            final(self)@.dom() == old(self)@.dom(),
            forall|k: int| 0 <= k < r@.len() ==> final(self)@[r@[k].0] == *final((#[trigger] r@[k]).1),
            forall|n: NodeId|
                old(self)@.contains_key(n) && !old(self).ancestors_of(target_id).contains(n) ==> #[trigger] final(self)@[n]
                    == old(self)@[n],
            final(self).kids_map() == old(self).kids_map(),
    {
        let ids = id_list(&self.ancestors(target_id));
        proof {
            let ghost s = self.ancestors_of(target_id);
            assert(ids@ == s);
            self.lemma_ancestors(target_id);
            assert forall|a: int, b: int| 0 <= a < s.len() && 0 <= b < s.len() && a != b implies s[a] != s[b] by {
                assert(self.depth_of(s[a]) != self.depth_of(s[b]));
            }
        }
        let r = self.links_mut(ids);
        proof {
            assert(mut_ids_of(r@) =~= ids@);
        }
        r
    }

    /// The siblings after the node, nearest first, each open to change.
    pub fn next_siblings_mut(&mut self, target_id: NodeId) -> (r: Vec<(NodeId, &mut Link<T>)>)
        requires
            old(self).wf(),
            old(self)@.contains_key(target_id),
        ensures
            mut_ids_of(r@) == old(self).next_siblings_of(target_id),
            forall|k: int| 0 <= k < r@.len() ==> *(#[trigger] r@[k]).1 == old(self)@[r@[k].0],
            final(self)@.dom() == old(self)@.dom(),
            forall|k: int| 0 <= k < r@.len() ==> final(self)@[r@[k].0] == *final((#[trigger] r@[k]).1),
            forall|n: NodeId|
                old(self)@.contains_key(n) && !old(self).next_siblings_of(target_id).contains(n) ==> #[trigger] final(self)@[n]
                    == old(self)@[n],
            final(self).kids_map() == old(self).kids_map(),
    {
        let ids = id_list(&self.next_siblings(target_id));
        proof {
            let ghost s = self.next_siblings_of(target_id);
            assert(ids@ == s);
            Self::lemma_sibling_ids(*self, target_id);
        }
        let r = self.links_mut(ids);
        proof {
            assert(mut_ids_of(r@) =~= ids@);
        }
        r
    }

    /// The siblings before the node, nearest first, each open to change.
    pub fn prev_siblings_mut(&mut self, target_id: NodeId) -> (r: Vec<(NodeId, &mut Link<T>)>)
        requires
            old(self).wf(),
            old(self)@.contains_key(target_id),
        ensures
            mut_ids_of(r@) == old(self).prev_siblings_of(target_id),
            forall|k: int| 0 <= k < r@.len() ==> *(#[trigger] r@[k]).1 == old(self)@[r@[k].0],
            final(self)@.dom() == old(self)@.dom(),
            forall|k: int| 0 <= k < r@.len() ==> final(self)@[r@[k].0] == *final((#[trigger] r@[k]).1),
            forall|n: NodeId|
                old(self)@.contains_key(n) && !old(self).prev_siblings_of(target_id).contains(n) ==> #[trigger] final(self)@[n]
                    == old(self)@[n],
            final(self).kids_map() == old(self).kids_map(),
    {
        let ids = id_list(&self.prev_siblings(target_id));
        proof {
            let ghost s = self.prev_siblings_of(target_id);
            assert(ids@ == s);
            Self::lemma_sibling_ids(*self, target_id);
        }
        let r = self.links_mut(ids);
        proof {
            assert(mut_ids_of(r@) =~= ids@);
        }
        r
    }

    /// The proper descendants in pre-order, each open to change.
    pub fn pre_ordered_descendants_mut(&mut self, target_id: NodeId) -> (r: Vec<(NodeId, &mut Link<T>)>)
        requires
            old(self).wf(),
            old(self)@.contains_key(target_id),
        ensures
            mut_ids_of(r@) == old(self).pre_order(target_id),
            forall|k: int| 0 <= k < r@.len() ==> *(#[trigger] r@[k]).1 == old(self)@[r@[k].0],
            final(self)@.dom() == old(self)@.dom(),
            forall|k: int| 0 <= k < r@.len() ==> final(self)@[r@[k].0] == *final((#[trigger] r@[k]).1),
            forall|n: NodeId|
                old(self)@.contains_key(n) && !old(self).pre_order(target_id).contains(n) ==> #[trigger] final(self)@[n]
                    == old(self)@[n],
            final(self).kids_map() == old(self).kids_map(),
    {
        let ids = id_list(&self.pre_ordered_descendants(target_id));
        proof {
            let ghost s = self.pre_order(target_id);
            assert(ids@ == s);
            self.lemma_order_members(target_id);
            assert forall|i: int| 0 <= i < s.len() implies self@.contains_key(#[trigger] s[i]) by {
                assert(s.contains(s[i]));
                assert(self.is_descendant(s[i], target_id));
            }
        }
        let r = self.links_mut(ids);
        proof {
            assert(mut_ids_of(r@) =~= ids@);
        }
        r
    }

    /// The proper descendants in post-order, each open to change.
    pub fn post_ordered_descendants_mut(&mut self, target_id: NodeId) -> (r: Vec<(NodeId, &mut Link<T>)>)
        requires
            old(self).wf(),
            old(self)@.contains_key(target_id),
        ensures
            mut_ids_of(r@) == old(self).post_order(target_id),
            forall|k: int| 0 <= k < r@.len() ==> *(#[trigger] r@[k]).1 == old(self)@[r@[k].0],
            final(self)@.dom() == old(self)@.dom(),
            forall|k: int| 0 <= k < r@.len() ==> final(self)@[r@[k].0] == *final((#[trigger] r@[k]).1),
            forall|n: NodeId|
                old(self)@.contains_key(n) && !old(self).post_order(target_id).contains(n) ==> #[trigger] final(self)@[n]
                    == old(self)@[n],
            final(self).kids_map() == old(self).kids_map(),
    {
        let ids = id_list(&self.post_ordered_descendants(target_id));
        proof {
            let ghost s = self.post_order(target_id);
            assert(ids@ == s);
            self.lemma_order_members(target_id);
            assert forall|i: int| 0 <= i < s.len() implies self@.contains_key(#[trigger] s[i]) by {
                assert(s.contains(s[i]));
            }
        }
        let r = self.links_mut(ids);
        proof {
            assert(mut_ids_of(r@) =~= ids@);
        }
        r
    }

    /// The node and then its proper descendants in pre-order, each open to change.
    pub fn walk_mut(&mut self, target_id: NodeId) -> (r: Vec<(NodeId, &mut Link<T>)>)
        requires
            old(self).wf(),
            old(self)@.contains_key(target_id),
        ensures
            mut_ids_of(r@) == seq![target_id] + old(self).pre_order(target_id),
            forall|k: int| 0 <= k < r@.len() ==> *(#[trigger] r@[k]).1 == old(self)@[r@[k].0],
            final(self)@.dom() == old(self)@.dom(),
            forall|k: int| 0 <= k < r@.len() ==> final(self)@[r@[k].0] == *final((#[trigger] r@[k]).1),
            forall|n: NodeId|
                old(self)@.contains_key(n) && !(seq![target_id] + old(self).pre_order(target_id)).contains(n) ==> #[trigger] final(self)@[n]
                    == old(self)@[n],
            final(self).kids_map() == old(self).kids_map(),
    {
        let ids = id_list(&self.walk(target_id));
        proof {
            let ghost s = seq![target_id] + self.pre_order(target_id);
            assert(ids@ == s);
            self.lemma_order_members(target_id);
            let p = self.pre_order(target_id);
            if p.contains(target_id) {
                assert(self.is_descendant(target_id, target_id));
                self.lemma_descendant_deeper(target_id, target_id);
            }
            assert forall|i: int| 0 <= i < s.len() implies self@.contains_key(#[trigger] s[i]) by {
                if i > 0 {
                    assert(s[i] == p[i - 1]);
                    assert(p.contains(p[i - 1]));
                    assert(self.is_descendant(p[i - 1], target_id));
                }
            }
            assert forall|a: int, b: int| 0 <= a < s.len() && 0 <= b < s.len() && a != b implies s[a] != s[b] by {
                if a > 0 && b > 0 {
                    assert(s[a] == p[a - 1] && s[b] == p[b - 1]);
                } else if a == 0 {
                    assert(s[b] == p[b - 1]);
                    assert(p.contains(p[b - 1]));
                } else {
                    assert(s[a] == p[a - 1]);
                    assert(p.contains(p[a - 1]));
                }
            }
        }
        let r = self.links_mut(ids);
        proof {
            assert(mut_ids_of(r@) =~= ids@);
        }
        r
    }
}

} // verus!
