use vstd::prelude::*;

use crate::tree::{NodeId, Tree};

verus! {

/// A piece of the outline of a forest: indentation by some levels, the opening or the
/// closing of a node, or a line break. Whoever writes the outline decides how a node
/// opens and closes.
#[derive(Clone, Copy, Debug, PartialEq, Eq, Structural)]
pub enum FormatToken {
    Indent(usize),
    Open(NodeId),
    Close(NodeId),
    Newline,
}

/// The outline of node `n` at `level`: indentation, the opening, the children's outline
/// indented one level deeper between line breaks, and the closing, which is indented
/// again where there are children.
pub open spec fn node_outline(
    kids: Map<NodeId, Seq<NodeId>>,
    n: NodeId,
    level: int,
    fuel: nat,
) -> Seq<FormatToken>
    decreases fuel, 0int,
{
    if fuel == 0 {
        Seq::empty()
    } else {
        let cs = kids[n];
        seq![FormatToken::Indent(level as usize), FormatToken::Open(n)] + (if cs.len() > 0 {
            seq![FormatToken::Newline] + forest_outline(kids, cs, level + 1, (fuel - 1) as nat) + seq![
                FormatToken::Newline,
                FormatToken::Indent(level as usize),
            ]
        } else {
            Seq::empty()
        }) + seq![FormatToken::Close(n)]
    }
}

/// The outlines of the nodes `cs` at `level`, one after the other, separated by line
/// breaks.
pub open spec fn forest_outline(
    kids: Map<NodeId, Seq<NodeId>>,
    cs: Seq<NodeId>,
    level: int,
    fuel: nat,
) -> Seq<FormatToken>
    decreases fuel, cs.len(),
{
    if cs.len() == 0 {
        Seq::empty()
    } else if cs.len() == 1 {
        node_outline(kids, cs[0], level, fuel)
    } else {
        node_outline(kids, cs[0], level, fuel) + seq![FormatToken::Newline] + forest_outline(
            kids,
            cs.drop_first(),
            level,
            fuel,
        )
    }
}

impl<T> Tree<T> {
    /// `n` and the siblings that follow it.
    pub open spec fn siblings_from(&self, n: NodeId) -> Seq<NodeId> {
        seq![n] + self.next_siblings_of(n)
    }

    /// The siblings from the first child of a node are all its children; those from the
    /// next sibling of a node are the siblings after it.
    proof fn lemma_sibling_chain(&self, n: NodeId)
        requires
            self.wf(),
            self@.contains_key(n),
        ensures
            self@[n].current.first_child matches Some(c) ==> self@.contains_key(c) && self.siblings_from(c)
                == self.children_of(n) && self.depth_of(c) == self.depth_of(n) + 1,
            self@[n].current.first_child is None ==> self.children_of(n).len() == 0,
            self@[n].next_sibling matches Some(s) ==> self@.contains_key(s) && self.siblings_from(s)
                == self.next_siblings_of(n) && self.depth_of(s) == self.depth_of(n)
                && self.next_siblings_of(s).len() < self.next_siblings_of(n).len(),
            self@[n].next_sibling is None ==> self.next_siblings_of(n).len() == 0,
    {
        assert(self.node_ok(n));
        let cs = self.children_of(n);
        if cs.len() > 0 {
            let c = cs[0];
            self.lemma_child_facts(n, 0);
            self.lemma_sibling_index(c);
            assert(self.siblings_from(c) =~= cs);
        }
        if let Some(p) = self@[n].parent {
            self.lemma_sibling_index(n);
            let k = self.sibling_index(n);
            let ps = self.children_of(p);
            if k < ps.len() - 1 {
                let s = ps[k + 1];
                self.lemma_child_facts(p, k + 1);
                self.lemma_sibling_index(s);
                assert(self.siblings_from(s) =~= self.next_siblings_of(n));
            }
        }
    }

    /// The outline of `node_id` and the siblings after it, each node opened and closed
    /// around the outline of its children.
    pub fn format(&self, node_id: NodeId) -> (r: Vec<FormatToken>)
        requires
            self.wf(),
            self@.contains_key(node_id),
        ensures
            r@ == forest_outline(
                self.kids_map(),
                self.siblings_from(node_id),
                0,
                self.fuel_of(node_id) + 1,
            ),
    {
        let mut out: Vec<FormatToken> = Vec::new();
        self.format_rec(node_id, 0, &mut out);
        proof {
            assert(out@ =~= Seq::<FormatToken>::empty() + forest_outline(
                self.kids_map(),
                self.siblings_from(node_id),
                0,
                self.fuel_of(node_id) + 1,
            ));
        }
        out
    }

    fn format_rec(&self, node_id: NodeId, level: usize, out: &mut Vec<FormatToken>)
        requires
            self.wf(),
            self@.contains_key(node_id),
            level <= self.depth_of(node_id),
        ensures
            final(out)@ == old(out)@ + forest_outline(
                self.kids_map(),
                self.siblings_from(node_id),
                level as int,
                self.fuel_of(node_id) + 1,
            ),
        decreases self.fuel_of(node_id), self.next_siblings_of(node_id).len(),
    {
        proof {
            self.lemma_sibling_chain(node_id);
            self.lemma_depth_bound(node_id);
            assert(self.node_ok(node_id));
        }
        let ghost start = out@;
        let ghost f = self.fuel_of(node_id);
        out.push(FormatToken::Indent(level));
        out.push(FormatToken::Open(node_id));
        let link = self.index(node_id);
        if let Some(child_id) = link.current.first_child {
            out.push(FormatToken::Newline);
            proof {
                assert(self.node_ok(child_id));
            }
            self.format_rec(child_id, level + 1, out);
            out.push(FormatToken::Newline);
            out.push(FormatToken::Indent(level));
        }
        out.push(FormatToken::Close(node_id));
        let ghost mid = out@;
        proof {
            let kids = self.kids_map();
            assert(mid =~= start + node_outline(kids, node_id, level as int, f + 1));
        }
        if let Some(sibling_id) = link.next_sibling {
            out.push(FormatToken::Newline);
            self.format_rec(sibling_id, level, out);
            proof {
                let kids = self.kids_map();
                let sib = self.siblings_from(node_id);
                assert(sib.drop_first() =~= self.next_siblings_of(node_id));
                assert(out@ =~= start + forest_outline(kids, sib, level as int, f + 1));
            }
        } else {
            proof {
                let kids = self.kids_map();
                let sib = self.siblings_from(node_id);
                assert(sib =~= seq![node_id]);
            }
        }
    }
}

} // verus!
