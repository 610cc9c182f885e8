use vstd::prelude::*;

use crate::id::{IdPath, IdStack, Level};
use crate::state::{paths_distinct, subscribed, Atom};

verus! {

/// What rendering a node can see: the path to it, the state, and the level of the
/// component being rendered.
#[derive(Debug)]
pub struct RenderContext<'context, S> {
    pub id_stack: &'context mut IdStack,
    pub state: &'context S,
    pub level: Level,
}

impl<'context, S> RenderContext<'context, S> {
    /// The path to the node being rendered.
    pub fn id_path(&self) -> (p: &IdPath)
        ensures
            p@ == old(self.id_stack).path(),
    {
        self.id_stack.id_path()
    }

    pub fn state(&self) -> (s: &S)
        ensures
            *s == *self.state,
    {
        self.state
    }

    /// The value of `atom`, which from now on counts the node being rendered among its
    /// subscribers at the current level.
    pub fn use_atom<'a, T>(&self, atom: &'a mut Atom<T>) -> (v: &'a T)
        ensures
            *v == old(atom).value_of(),
            final(atom).value_of() == old(atom).value_of(),
            subscribed(
                old(atom).subscribers_of(),
                final(atom).subscribers_of(),
                old(self.id_stack).path(),
                self.level,
            ),
            paths_distinct(old(atom).subscribers_of()) ==> paths_distinct(final(atom).subscribers_of()),
    {
        atom.subscribe(self.id_stack.id_path(), self.level);
        atom.get()
    }
}

} // verus!
