use vstd::prelude::*;

verus! {

/// A stage in the life of a widget; an update carries the widget it compares with.
pub enum Lifecycle<T> {
    WillMount,
    WillUpdate(T),
    WillUnmount,
    DidMount,
    DidUpdate(T),
    DidUnmount,
}

/// What a widget may act on during a lifecycle stage.
pub struct LifecycleContext;

impl<T> Lifecycle<T> {
    /// The same stage, with `f` applied to the widget of an update.
    pub fn map<U, F: Fn(&T) -> U>(&self, f: F) -> (r: Lifecycle<U>)
        requires
            forall|widget: &T| #[trigger] f.requires((widget,)),
        ensures
            match *self {
                Lifecycle::WillMount => r is WillMount,
                Lifecycle::WillUpdate(w) => r matches Lifecycle::WillUpdate(u) && f.ensures((&w,), u),
                Lifecycle::WillUnmount => r is WillUnmount,
                Lifecycle::DidMount => r is DidMount,
                Lifecycle::DidUpdate(w) => r matches Lifecycle::DidUpdate(u) && f.ensures((&w,), u),
                Lifecycle::DidUnmount => r is DidUnmount,
            },
    {
        match self {
            Lifecycle::WillMount => Lifecycle::WillMount,
            Lifecycle::WillUpdate(widget) => Lifecycle::WillUpdate(f(widget)),
            Lifecycle::WillUnmount => Lifecycle::WillUnmount,
            Lifecycle::DidMount => Lifecycle::DidMount,
            Lifecycle::DidUpdate(widget) => Lifecycle::DidUpdate(f(widget)),
            Lifecycle::DidUnmount => Lifecycle::DidUnmount,
        }
    }
}

} // verus!
