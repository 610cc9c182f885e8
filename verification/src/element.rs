use vstd::prelude::*;

use std::rc::Rc;

verus! {

/// A sequence of elements, as the children of a view. It renders into a storage of nodes
/// and later updates that storage in place, telling whether anything changed.
pub trait ElementSeq<Context>: Sized {
    type Storage;

    /// The storage rendered from the elements, and the context afterwards.
    spec fn rendered(self, context: Context) -> (Self::Storage, Context);

    /// The storage updated to the elements, the context afterwards, and whether anything
    /// changed.
    spec fn updated(self, storage: Self::Storage, context: Context) -> (Self::Storage, Context, bool);

    fn render_children(self, context: &mut Context) -> (s: Self::Storage)
        ensures
            (s, *final(context)) == self.rendered(*old(context)),
    ;

    fn update_children(self, storage: &mut Self::Storage, context: &mut Context) -> (changed: bool)
        ensures
            (*final(storage), *final(context), changed) == self.updated(*old(storage), *old(context)),
    ;
}

/// An element that renders a component.
#[derive(Debug)]
pub struct ComponentElement<C> {
    component: C,
}

impl<C> ComponentElement<C> {
    pub closed spec fn component_of(&self) -> C {
        self.component
    }

    pub fn new(component: C) -> (e: ComponentElement<C>)
        ensures
            e.component_of() == component,
    {
        ComponentElement { component }
    }
}

/// An element that builds its component from dependencies, and skips updates while they
/// stay equal.
pub struct MemoizeElement<Hoc, Deps> {
    hoc: Hoc,
    deps: Deps,
}

impl<Hoc, Deps> MemoizeElement<Hoc, Deps> {
    pub closed spec fn hoc_of(&self) -> Hoc {
        self.hoc
    }

    pub closed spec fn deps_of(&self) -> Deps {
        self.deps
    }

    pub fn new(hoc: Hoc, deps: Deps) -> (e: Self)
        ensures
            e.hoc_of() == hoc,
            e.deps_of() == deps,
    {
        MemoizeElement { hoc, deps }
    }
}

/// A view together with the callback that hears of its lifecycle.
pub struct Hook<Inner, Callback> {
    inner: Inner,
    callback: Rc<Callback>,
}

impl<Inner, Callback> Hook<Inner, Callback> {
    pub closed spec fn inner_of(&self) -> Inner {
        self.inner
    }

    pub closed spec fn callback_of(&self) -> Callback {
        *self.callback
    }

    pub fn new(inner: Inner, callback: Rc<Callback>) -> (h: Self)
        ensures
            h.inner_of() == inner,
            h.callback_of() == *callback,
    {
        Hook { inner, callback }
    }
}

} // verus!
