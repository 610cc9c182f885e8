use vstd::prelude::*;

use std::marker::PhantomData;

verus! {

/// The end of a stack of components, above the view `V`.
#[derive(Debug)]
pub struct ComponentTermination<V> {
    _phantom: PhantomData<V>,
}

impl<V> ComponentTermination<V> {
    pub fn new() -> (t: Self) {
        ComponentTermination { _phantom: PhantomData }
    }
}

} // verus!
