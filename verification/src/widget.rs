use vstd::prelude::*;

verus! {

/// The key that tells siblings apart when children are reconciled.
pub type Key = usize;

/// What every widget can say about itself: the key it carries, if any.
pub trait WidgetMeta {
    /// The key of the widget; a widget carries none unless it was given one.
    fn key(&self) -> (r: Option<Key>)
        default_ensures
            r is None,
    {
        None
    }

    /// The widget with `key` attached.
    fn with_key(self, key: Key) -> (w: WithKey<Self>) where Self: Sized
        ensures
            w.key_of() == key,
            w.inner_of() == self,
    {
        WithKey { inner: self, key }
    }
}

/// A widget together with the key it was given.
pub struct WithKey<T> {
    inner: T,
    key: Key,
}

impl<T> WithKey<T> {
    pub closed spec fn key_of(&self) -> Key {
        self.key
    }

    pub closed spec fn inner_of(&self) -> T {
        self.inner
    }
}

impl<T: WidgetMeta> WidgetMeta for WithKey<T> {
    fn key(&self) -> (r: Option<Key>)
        ensures
            r == Some(self.key_of()),
    {
        Some(self.key)
    }
}

/// A widget that fills its area with one color.
#[derive(PartialEq, Eq, Structural)]
pub struct Fill {
    color: u32,
}

impl Fill {
    pub closed spec fn color_of(&self) -> u32 {
        self.color
    }

    pub fn new(color: u32) -> (f: Fill)
        ensures
            f.color_of() == color,
    {
        Fill { color }
    }

    /// A fill needs repainting when the next one has another color.
    pub fn should_update(&self, next_widget: &Fill) -> (b: bool)
        ensures
            b == (self.color_of() != next_widget.color_of()),
    {
        !(*self == *next_widget)
    }
}

impl WidgetMeta for Fill {
}

/// The direction in which a flex container lays out its children.
#[derive(Clone, Copy, Debug, PartialEq, Eq, Structural)]
pub enum Axis {
    Horizontal,
    Vertical,
}

/// A container that lays out its children along an axis.
pub struct Flex {
    direction: Axis,
}

impl Flex {
    pub closed spec fn direction_of(&self) -> Axis {
        self.direction
    }

    /// Children side by side.
    pub fn row() -> (f: Flex)
        ensures
            f.direction_of() == Axis::Horizontal,
    {
        Flex { direction: Axis::Horizontal }
    }

    /// Children one below the other.
    pub fn column() -> (f: Flex)
        ensures
            f.direction_of() == Axis::Vertical,
    {
        Flex { direction: Axis::Vertical }
    }

    pub fn direction(&self) -> (a: Axis)
        ensures
            a == self.direction_of(),
    {
        self.direction
    }
}

impl WidgetMeta for Flex {
}

/// A widget that shows nothing.
pub struct Null;

impl WidgetMeta for Null {
}

} // verus!
