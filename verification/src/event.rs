use vstd::prelude::*;

use crate::id::IdPathBuf;

verus! {

/// Where an event goes: to one node, or to several.
#[derive(Debug)]
pub enum EventDestination {
    Unicast(IdPathBuf),
    Multicast(Vec<IdPathBuf>),
}

/// A stage in the life of a view node; an update carries a value.
#[derive(Debug)]
pub enum Lifecycle<T> {
    Mount,
    Remount,
    Update(T),
    Unmount,
}

impl<T> Lifecycle<T> {
    /// The same stage, with `f` applied to the value of an update.
    pub fn map<F, U>(self, f: F) -> (r: Lifecycle<U>)
        where
            F: FnOnce(T) -> U,
        requires
            forall|value: T| #[trigger] f.requires((value,)),
        ensures
            match self {
                Lifecycle::Mount => r is Mount,
                Lifecycle::Remount => r is Remount,
                Lifecycle::Update(value) => r matches Lifecycle::Update(u) && f.ensures((value,), u),
                Lifecycle::Unmount => r is Unmount,
            },
    {
        match self {
            Lifecycle::Mount => Lifecycle::Mount,
            Lifecycle::Remount => Lifecycle::Remount,
            Lifecycle::Update(value) => Lifecycle::Update(f(value)),
            Lifecycle::Unmount => Lifecycle::Unmount,
        }
    }
}

} // verus!
