use vstd::prelude::*;

verus! {

/// Only the two list shapes below implement `HList`.
pub trait Sealed {
}

/// A list whose elements may each have their own type.
pub trait HList: Sealed {
}

/// The empty list.
#[derive(Clone, Default, PartialEq, Eq, Hash, PartialOrd, Ord)]
pub struct HNil;

impl Sealed for HNil {
}

impl HList for HNil {
}

/// An element in front of a list.
#[derive(Clone, PartialEq, Eq, Hash, PartialOrd, Ord)]
pub struct HCons<Head, Tail: HList> {
    pub head: Head,
    pub tail: Tail,
}

impl<Head, Tail: HList> Sealed for HCons<Head, Tail> {
}

impl<Head, Tail: HList> HList for HCons<Head, Tail> {
}

} // verus!
