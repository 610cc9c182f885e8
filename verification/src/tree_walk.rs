use vstd::prelude::*;

use crate::tree::{Link, NodeId, Tree};

verus! {

/// The way a walk around a subtree moved to reach a node.
#[derive(Debug, PartialEq, Eq, Structural)]
pub enum WalkDirection {
    Downward,
    Sideward,
    Upward,
}

/// The step that follows a visit of `node_id`, reached by `direction`, in a walk around
/// the subtree of `root_id`: down to the first child, else across to the next sibling,
/// else up to the parent; a node reached upward is left across or upward only; the
/// root is only ever left downward, and the walk ends when it comes back to the root.
pub open spec fn walk_step<T>(
    node_id: NodeId,
    root_id: NodeId,
    link: Link<T>,
    direction: WalkDirection,
) -> Option<(NodeId, WalkDirection)> {
    if node_id == root_id {
        match direction {
            WalkDirection::Downward => match link.current.first_child {
                Some(c) => Some((c, WalkDirection::Downward)),
                None => None,
            },
            _ => None,
        }
    } else {
        let across_or_up = match link.next_sibling {
            Some(s) => Some((s, WalkDirection::Sideward)),
            None => match link.parent {
                Some(p) => Some((p, WalkDirection::Upward)),
                None => None,
            },
        };
        match direction {
            WalkDirection::Upward => across_or_up,
            _ => match link.current.first_child {
                Some(c) => Some((c, WalkDirection::Downward)),
                None => across_or_up,
            },
        }
    }
}

/// The node that a walk visits after `node_id`, and how it gets there.
pub fn walk_next_node<T>(
    node_id: NodeId,
    root_id: NodeId,
    link: &Link<T>,
    direction: &WalkDirection,
) -> (r: Option<(NodeId, WalkDirection)>)
    ensures
        r == walk_step(node_id, root_id, *link, *direction),
{
    if node_id == root_id {
        match direction {
            WalkDirection::Downward => {
                match link.first_child() {
                    Some(child_id) => Some((child_id, WalkDirection::Downward)),
                    None => None,
                }
            },
            _ => None,
        }
    } else {
        match direction {
            WalkDirection::Downward | WalkDirection::Sideward => {
                if let Some(child_id) = link.current.first_child {
                    Some((child_id, WalkDirection::Downward))
                } else if let Some(sibling_id) = link.next_sibling {
                    Some((sibling_id, WalkDirection::Sideward))
                } else if let Some(parent_id) = link.parent {
                    Some((parent_id, WalkDirection::Upward))
                } else {
                    None
                }
            },
            WalkDirection::Upward => {
                if let Some(sibling_id) = link.next_sibling {
                    Some((sibling_id, WalkDirection::Sideward))
                } else if let Some(parent_id) = link.parent {
                    Some((parent_id, WalkDirection::Upward))
                } else {
                    None
                }
            },
        }
    }
}

/// The walk through the subtree of `n`, which is entered by `d`: `n`, then, where it has
/// children, the walk through them and `n` again on the way up.
pub open spec fn node_tour(
    kids: Map<NodeId, Seq<NodeId>>,
    n: NodeId,
    d: WalkDirection,
    fuel: nat,
) -> Seq<(NodeId, WalkDirection)>
    decreases fuel, 0int,
{
    if fuel == 0 {
        Seq::empty()
    } else if kids[n].len() > 0 {
        seq![(n, d)] + forest_tour(kids, kids[n], true, (fuel - 1) as nat) + seq![(n, WalkDirection::Upward)]
    } else {
        seq![(n, d)]
    }
}

/// The walk through the subtrees of `cs` in turn: the first entered from above when
/// `first`, every other one from the side.
pub open spec fn forest_tour(
    kids: Map<NodeId, Seq<NodeId>>,
    cs: Seq<NodeId>,
    first: bool,
    fuel: nat,
) -> Seq<(NodeId, WalkDirection)>
    decreases fuel, cs.len(),
{
    if cs.len() == 0 || fuel == 0 {
        Seq::empty()
    } else {
        node_tour(
            kids,
            cs[0],
            if first {
                WalkDirection::Downward
            } else {
                WalkDirection::Sideward
            },
            fuel,
        ) + forest_tour(kids, cs.drop_first(), false, fuel)
    }
}

/// The nodes a walk enters, in order: every visit but the upward ones.
pub open spec fn entered(tour: Seq<(NodeId, WalkDirection)>) -> Seq<NodeId>
    decreases tour.len(),
{
    if tour.len() == 0 {
        Seq::empty()
    } else {
        (if tour[0].1 is Upward {
            Seq::empty()
        } else {
            seq![tour[0].0]
        }) + entered(tour.drop_first())
    }
}

proof fn lemma_entered_single(v: (NodeId, WalkDirection))
    ensures
        entered(seq![v]) == if v.1 is Upward {
            Seq::<NodeId>::empty()
        } else {
            seq![v.0]
        },
{
    assert(seq![v].drop_first() =~= Seq::<(NodeId, WalkDirection)>::empty());
    assert(entered(Seq::<(NodeId, WalkDirection)>::empty()) == Seq::<NodeId>::empty());
    assert(entered(seq![v]) =~= (if v.1 is Upward {
        Seq::<NodeId>::empty()
    } else {
        seq![v.0]
    }) + entered(seq![v].drop_first()));
}

proof fn lemma_entered_concat(a: Seq<(NodeId, WalkDirection)>, b: Seq<(NodeId, WalkDirection)>)
    ensures
        entered(a + b) == entered(a) + entered(b),
    decreases a.len(),
{
    if a.len() == 0 {
        assert(a + b =~= b);
    } else {
        assert((a + b).drop_first() =~= a.drop_first() + b);
        lemma_entered_concat(a.drop_first(), b);
        assert(entered(a + b) =~= entered(a) + entered(b));
    }
}

/// The walk through a forest enters its nodes in pre-order.
pub proof fn lemma_forest_tour_entered(kids: Map<NodeId, Seq<NodeId>>, cs: Seq<NodeId>, first: bool, fuel: nat)
    ensures
        entered(forest_tour(kids, cs, first, fuel)) == crate::tree_order::pre_forest(kids, cs, fuel),
    decreases fuel, cs.len(),
{
    if cs.len() > 0 && fuel > 0 {
        let n = cs[0];
        let d = if first {
            WalkDirection::Downward
        } else {
            WalkDirection::Sideward
        };
        lemma_forest_tour_entered(kids, cs.drop_first(), false, fuel);
        let nt = node_tour(kids, n, d, fuel);
        lemma_entered_concat(nt, forest_tour(kids, cs.drop_first(), false, fuel));
        if kids[n].len() > 0 {
            lemma_forest_tour_entered(kids, kids[n], true, (fuel - 1) as nat);
            let inner = forest_tour(kids, kids[n], true, (fuel - 1) as nat);
            lemma_entered_concat(seq![(n, d)], inner);
            lemma_entered_concat(seq![(n, d)] + inner, seq![(n, WalkDirection::Upward)]);
            lemma_entered_single((n, d));
            lemma_entered_single((n, WalkDirection::Upward));
        } else {
            lemma_entered_single((n, d));
            assert(crate::tree_order::pre_forest(kids, kids[n], (fuel - 1) as nat) =~= Seq::<NodeId>::empty());
        }
        assert(entered(forest_tour(kids, cs, first, fuel)) =~= crate::tree_order::pre_forest(kids, cs, fuel));
    }
}

impl<T> Tree<T> {
    /// The walk around the subtree of `r`, as `walk_next_node` takes it from `r` entered
    /// downward.
    pub open spec fn walk_tour(&self, r: NodeId) -> Seq<(NodeId, WalkDirection)> {
        node_tour(self.kids_map(), r, WalkDirection::Downward, self.fuel_of(r) + 1)
    }

    /// What follows the walk through the subtree of `x` in the walk around `r`.
    pub open spec fn tour_after_f(&self, r: NodeId, x: NodeId, fuel: nat) -> Seq<(NodeId, WalkDirection)>
        decreases fuel,
    {
        if fuel == 0 {
            Seq::empty()
        } else {
            let p = self@[x].parent.unwrap();
            let cs = self.children_of(p);
            forest_tour(self.kids_map(), cs.subrange(self.sibling_index(x) + 1, cs.len() as int), false, self.fuel_of(p))
                + seq![(p, WalkDirection::Upward)] + (if p == r {
                Seq::empty()
            } else {
                self.tour_after_f(r, p, (fuel - 1) as nat)
            })
        }
    }

    pub open spec fn tour_after(&self, r: NodeId, x: NodeId) -> Seq<(NodeId, WalkDirection)> {
        self.tour_after_f(r, x, (self.depth_of(x) - self.depth_of(r)) as nat)
    }

    /// The rest of the walk around `r` from the visit of `x` by `d` on.
    pub open spec fn visit_rest(&self, r: NodeId, x: NodeId, d: WalkDirection) -> Seq<(NodeId, WalkDirection)> {
        if d is Upward {
            if x == r {
                seq![(r, WalkDirection::Upward)]
            } else {
                seq![(x, WalkDirection::Upward)] + self.tour_after(r, x)
            }
        } else {
            node_tour(self.kids_map(), x, d, self.fuel_of(x) + 1) + if x == r {
                Seq::empty()
            } else {
                self.tour_after(r, x)
            }
        }
    }

    pub open spec fn walk_rest(&self, r: NodeId, next: Option<(NodeId, WalkDirection)>) -> Seq<(NodeId, WalkDirection)> {
        match next {
            None => Seq::empty(),
            Some((x, d)) => self.visit_rest(r, x, d),
        }
    }

    /// A visit the walk around `r` can make: `r` entered downward or left upward, or a node
    /// below `r`.
    pub open spec fn walk_visit_ok(&self, r: NodeId, x: NodeId, d: WalkDirection) -> bool {
        &&& self@.contains_key(x)
        &&& (x == r ==> !(d is Sideward))
        &&& (x != r ==> self.is_descendant(x, r))
    }

    proof fn lemma_tour_after_unfold(&self, r: NodeId, x: NodeId)
        requires
            self.wf(),
            self@.contains_key(x),
            self.is_descendant(x, r),
        ensures
            ({
                let p = self@[x].parent.unwrap();
                let cs = self.children_of(p);
                self.tour_after(r, x) == forest_tour(
                    self.kids_map(),
                    cs.subrange(self.sibling_index(x) + 1, cs.len() as int),
                    false,
                    self.fuel_of(p),
                ) + seq![(p, WalkDirection::Upward)] + (if p == r {
                    Seq::empty()
                } else {
                    self.tour_after(r, p)
                })
            }),
    {
        self.lemma_descendant_deeper(x, r);
        self.lemma_ancestors(x);
    }

    /// One step of `walk_next_node` takes the first visit off the rest of the walk.
    #[verifier::spinoff_prover]
    proof fn lemma_walk_step(&self, r: NodeId, x: NodeId, d: WalkDirection)
        requires
            self.wf(),
            self@.contains_key(r),
            self.walk_visit_ok(r, x, d),
        ensures
            self.visit_rest(r, x, d).len() > 0,
            self.visit_rest(r, x, d)[0] == (x, d),
            match walk_step(x, r, self@[x], d) {
                None => self.visit_rest(r, x, d).len() == 1,
                Some((y, e)) => self.walk_visit_ok(r, y, e) && self.visit_rest(r, x, d).drop_first()
                    == self.visit_rest(r, y, e),
            },
    {
        let kids = self.kids_map();
        let l = self@[x];
        assert(self.node_ok(x));
        let cs = self.children_of(x);
        if !(d is Upward) && cs.len() > 0 {
            // Down to the first child.
            let c = cs[0];
            self.lemma_child_facts(x, 0);
            self.lemma_child_fuel(x, 0);
            self.lemma_sibling_index(c);
            assert(self.sibling_index(c) == 0);
            if x == r {
                self.lemma_parent_is_ancestor(c);
            } else {
                self.lemma_descendant_step(c, r);
            }
            self.lemma_tour_after_unfold(r, c);
            assert(cs.subrange(1, cs.len() as int) =~= cs.drop_first());
            let rest = node_tour(kids, x, d, self.fuel_of(x) + 1);
            assert(rest == seq![(x, d)] + forest_tour(kids, cs, true, self.fuel_of(x)) + seq![(x, WalkDirection::Upward)]);
            assert(forest_tour(kids, cs, true, self.fuel_of(x)) == node_tour(kids, c, WalkDirection::Downward, self.fuel_of(c) + 1)
                + forest_tour(kids, cs.drop_first(), false, self.fuel_of(x)));
            assert(self.visit_rest(r, x, d).drop_first() =~= self.visit_rest(r, c, WalkDirection::Downward));
        } else if x == r {
            if d is Upward {
            } else {
                assert(self.visit_rest(r, x, d) =~= seq![(x, d)]);
            }
        } else {
            // Across to the next sibling, or up to the parent.
            self.lemma_descendant_deeper(x, r);
            let p = l.parent.unwrap();
            self.lemma_sibling_index(x);
            let k = self.sibling_index(x);
            let ps = self.children_of(p);
            self.lemma_tour_after_unfold(r, x);
            let after_sibs = ps.subrange(k + 1, ps.len() as int);
            let head = if d is Upward {
                seq![(x, WalkDirection::Upward)]
            } else {
                assert(node_tour(kids, x, d, self.fuel_of(x) + 1) == seq![(x, d)]);
                seq![(x, d)]
            };
            assert(self.visit_rest(r, x, d) == head + self.tour_after(r, x));
            if k < ps.len() - 1 {
                let s = ps[k + 1];
                self.lemma_child_facts(p, k + 1);
                self.lemma_child_fuel(p, k + 1);
                self.lemma_sibling_index(s);
                assert(self.sibling_index(s) == k + 1);
                self.lemma_descendant_deeper(x, r);
                if p == r {
                    self.lemma_parent_is_ancestor(s);
                } else {
                    self.lemma_descendant_step(s, r);
                }
                self.lemma_tour_after_unfold(r, s);
                assert(after_sibs[0] == s);
                assert(after_sibs.drop_first() =~= ps.subrange(k + 2, ps.len() as int));
                assert(self.visit_rest(r, x, d).drop_first() =~= self.visit_rest(r, s, WalkDirection::Sideward));
            } else {
                assert(after_sibs =~= Seq::<NodeId>::empty());
                assert(self@.contains_key(p));
                if p != r {
                    self.lemma_parent_is_ancestor(x);
                    self.lemma_descendant_deeper(x, r);
                }
                assert(self.visit_rest(r, x, d).drop_first() =~= self.visit_rest(r, p, WalkDirection::Upward));
            }
        }
    }

    /// The walk around a node enters the node and then its proper descendants in
    /// pre-order: exactly what `walk` lists.
    pub proof fn law_walk_enters_in_pre_order(&self, r: NodeId)
        requires
            self.wf(),
            self@.contains_key(r),
        ensures
            entered(self.walk_tour(r)) == seq![r] + self.pre_order(r),
    {
        let kids = self.kids_map();
        let f = self.fuel_of(r);
        let d = WalkDirection::Downward;
        lemma_entered_single((r, d));
        if kids[r].len() > 0 {
            let inner = forest_tour(kids, kids[r], true, f);
            lemma_forest_tour_entered(kids, kids[r], true, f);
            lemma_entered_concat(seq![(r, d)], inner);
            lemma_entered_concat(seq![(r, d)] + inner, seq![(r, WalkDirection::Upward)]);
            lemma_entered_single((r, WalkDirection::Upward));
        } else {
            assert(self.pre_order(r) =~= Seq::<NodeId>::empty());
        }
        assert(entered(self.walk_tour(r)) =~= seq![r] + self.pre_order(r));
    }

    /// The whole walk around `target_id`, every visit with the way it was reached; the
    /// steps are those of `walk_next_node`.
    pub fn walk_directions(&self, target_id: NodeId) -> (r: Vec<(NodeId, WalkDirection)>)
        requires
            self.wf(),
            self@.contains_key(target_id),
        ensures
            r@ == self.walk_tour(target_id),
    {
        let mut out: Vec<(NodeId, WalkDirection)> = Vec::new();
        let mut next: Option<(NodeId, WalkDirection)> = Some((target_id, WalkDirection::Downward));
        while next.is_some()
            invariant
                self.wf(),
                self@.contains_key(target_id),
                out@ + self.walk_rest(target_id, next) == self.walk_tour(target_id),
                next matches Some((x, d)) ==> self.walk_visit_ok(target_id, x, d),
            decreases self.walk_rest(target_id, next).len(),
        {
            let (node_id, direction) = next.unwrap();
            proof {
                self.lemma_walk_step(target_id, node_id, direction);
            }
            let link = self.index(node_id);
            next = walk_next_node(node_id, target_id, link, &direction);
            let ghost before = out@;
            out.push((node_id, direction));
            proof {
                let rest = self.visit_rest(target_id, node_id, direction);
                assert(rest =~= seq![(node_id, direction)] + rest.drop_first());
                assert(out@ + self.walk_rest(target_id, next) =~= before + rest);
            }
        }
        proof {
            assert(out@ + Seq::<(NodeId, WalkDirection)>::empty() =~= out@);
        }
        out
    }
}

} // verus!
