use vstd::prelude::*;

use crate::id::{IdPathBuf, Id, Level};
use crate::id_tree::Cursor;

verus! {

/// How a subtree is being committed.
#[derive(Clone, Copy, Debug, PartialEq, Eq, Structural)]
pub enum CommitMode {
    Mount,
    Unmount,
    Update,
}

impl CommitMode {
    /// Mounting and unmounting reach the whole subtree; an update does not.
    pub fn is_propagable(&self) -> (b: bool)
        ensures
            b == (*self != CommitMode::Update),
    {
        match self {
            CommitMode::Mount | CommitMode::Unmount => true,
            CommitMode::Update => false,
        }
    }
}


/// A storage of view nodes: it is committed in a mode, telling whether anything
/// changed, and cleaned up afterwards.
pub trait ViewNodeSeq<Context>: Sized {
    /// The number of nodes held.
    spec fn node_count(&self) -> nat;

    /// The storage, the context and whether anything changed, after a commit in `mode`.
    spec fn committed(&self, mode: CommitMode, context: Context) -> (Self, Context, bool);

    /// The storage after cleaning up.
    spec fn collected(&self) -> Self;

    fn len(&self) -> (n: usize)
        ensures
            n == self.node_count(),
    ;

    fn commit(&mut self, mode: CommitMode, context: &mut Context) -> (changed: bool)
        ensures
            (*final(self), *final(context), changed) == old(self).committed(mode, *old(context)),
    ;

    fn gc(&mut self)
        ensures
            *final(self) == old(self).collected(),
    ;
}

/// A node whose parts a visitor can be taken through.
pub trait Traversable<Visitor, Context>: Sized {
    /// The node, the visitor and the context after the visitor went through the node.
    spec fn visited(&self, visitor: Visitor, context: Context) -> (Self, Visitor, Context);

    /// The node, the visitor and the context after the visitor was taken to the node `id`,
    /// and whether that node was found.
    spec fn visited_id(&self, id: Id, visitor: Visitor, context: Context) -> (Self, Visitor, Context, bool);

    fn for_each(&mut self, visitor: &mut Visitor, context: &mut Context)
        ensures
            (*final(self), *final(visitor), *final(context)) == old(self).visited(
                *old(visitor),
                *old(context),
            ),
    ;

    fn for_id(&mut self, id: Id, visitor: &mut Visitor, context: &mut Context) -> (found: bool)
        ensures
            (*final(self), *final(visitor), *final(context), found) == old(self).visited_id(
                id,
                *old(visitor),
                *old(context),
            ),
    ;
}

/// Something that acts on the nodes it is taken to.
pub trait Visitor<Node, Context> {
    fn visit(&mut self, node: &mut Node, context: &mut Context);
}

/// Commits the marked nodes of a subtree in one mode.
pub struct CommitSubtreeVisitor<'a> {
    mode: CommitMode,
    cursor: Cursor<'a, ()>,
}

impl<'a> CommitSubtreeVisitor<'a> {
    pub closed spec fn mode_of(&self) -> CommitMode {
        self.mode
    }

    pub closed spec fn cursor_of(&self) -> Cursor<'a, ()> {
        self.cursor
    }

    pub fn new(mode: CommitMode, cursor: Cursor<'a, ()>) -> (v: Self)
        ensures
            v.mode_of() == mode,
            v.cursor_of() == cursor,
    {
        CommitSubtreeVisitor { mode, cursor }
    }
}

/// Updates the marked nodes of a subtree and records the paths it updated, each with its
/// level.
pub struct UpdateSubtreeVisitor<'a> {
    cursor: Cursor<'a, Level>,
    result: Vec<(IdPathBuf, Level)>,
}

impl<'a> UpdateSubtreeVisitor<'a> {
    pub closed spec fn cursor_of(&self) -> Cursor<'a, Level> {
        self.cursor
    }

    pub closed spec fn result_of(&self) -> Seq<(IdPathBuf, Level)> {
        self.result@
    }

    /// A visitor that has updated nothing yet.
    pub fn new(cursor: Cursor<'a, Level>) -> (v: Self)
        ensures
            v.cursor_of() == cursor,
            v.result_of() == Seq::<(IdPathBuf, Level)>::empty(),
    {
        UpdateSubtreeVisitor { cursor, result: Vec::new() }
    }

    /// The paths updated so far, each with its level.
    pub fn into_result(self) -> (r: Vec<(IdPathBuf, Level)>)
        ensures
            r@ == self.result_of(),
    {
        self.result
    }
}

} // verus!
