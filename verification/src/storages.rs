use vstd::prelude::*;

use crate::element::ElementSeq;
use crate::hlist::{HCons, HList, HNil};
use crate::id::Id;
use crate::view_node::{CommitMode, Traversable, ViewNodeSeq};

verus! {

/// What is due at a storage's next commit: its nodes were updated, or its active and
/// staging nodes are to change places; and whether it has been committed before.
#[derive(Clone, Copy, Debug, PartialEq, Eq, Structural)]
pub struct RenderFlags {
    pub updated: bool,
    pub swapped: bool,
    pub committed: bool,
}

impl RenderFlags {
    /// No flag set.
    pub open spec fn cleared() -> RenderFlags {
        RenderFlags { updated: false, swapped: false, committed: false }
    }

    /// Only `committed` set, as after a commit.
    pub open spec fn after_commit() -> RenderFlags {
        RenderFlags { updated: false, swapped: false, committed: true }
    }

    pub fn none() -> (f: RenderFlags)
        ensures
            f == RenderFlags::cleared(),
    {
        RenderFlags { updated: false, swapped: false, committed: false }
    }

    pub fn committed_only() -> (f: RenderFlags)
        ensures
            f == RenderFlags::after_commit(),
    {
        RenderFlags { updated: false, swapped: false, committed: true }
    }
}

/// The storage of an optional element: the nodes shown now, the nodes rendered for an
/// element that is to take their place, and what is due at the next commit. It never
/// holds both.
#[derive(Debug)]
pub struct OptionStorage<T> {
    active: Option<T>,
    staging: Option<T>,
    flags: RenderFlags,
}

impl<T> OptionStorage<T> {
    #[verifier::type_invariant]
    spec fn one_part(&self) -> bool {
        !(self.active is Some && self.staging is Some)
    }

    /// The nodes shown now.
    pub closed spec fn active_nodes(&self) -> Option<T> {
        self.active
    }

    /// The nodes waiting to take the place of the active ones.
    pub closed spec fn staging_nodes(&self) -> Option<T> {
        self.staging
    }

    pub closed spec fn render_flags(&self) -> RenderFlags {
        self.flags
    }

    /// The storage with the given parts.
    pub closed spec fn from_parts(active: Option<T>, staging: Option<T>, flags: RenderFlags) -> Self {
        OptionStorage { active, staging, flags }
    }

    /// A storage built from parts holds those parts.
    pub broadcast proof fn lemma_from_parts(active: Option<T>, staging: Option<T>, flags: RenderFlags)
        ensures
            (#[trigger] Self::from_parts(active, staging, flags)).active_nodes() == active,
            Self::from_parts(active, staging, flags).staging_nodes() == staging,
            Self::from_parts(active, staging, flags).render_flags() == flags,
    {
    }

    /// A storage is the one built from its own parts.
    pub proof fn lemma_own_parts(s: Self)
        ensures
            Self::from_parts(s.active_nodes(), s.staging_nodes(), s.render_flags()) == s,
    {
    }

    /// Active and staging nodes are never held at once.
    pub open spec fn holds_one_part(&self) -> bool {
        !(self.active_nodes() is Some && self.staging_nodes() is Some)
    }

    fn new(active: Option<T>) -> (s: Self)
        ensures
            s.active_nodes() == active,
            s.staging_nodes() is None,
            s.render_flags() == RenderFlags::cleared(),
    {
        OptionStorage { active, staging: None, flags: RenderFlags::none() }
    }
}

impl<E: ElementSeq<C>, C> ElementSeq<C> for Option<E> {
    type Storage = OptionStorage<E::Storage>;

    open spec fn rendered(self, context: C) -> (OptionStorage<E::Storage>, C) {
        match self {
            Some(element) => {
                let (node, c) = element.rendered(context);
                (OptionStorage::from_parts(Some(node), None, RenderFlags::cleared()), c)
            },
            None => (OptionStorage::from_parts(None, None, RenderFlags::cleared()), context),
        }
    }

    open spec fn updated(self, storage: OptionStorage<E::Storage>, context: C) -> (OptionStorage<E::Storage>, C, bool) {
        let active = storage.active_nodes();
        let staging = storage.staging_nodes();
        let flags = storage.render_flags();
        match self {
            Some(element) => if active is Some {
                let (node, c, r) = element.updated(active->0, context);
                let flags = if r {
                    RenderFlags { updated: true, swapped: false, committed: flags.committed }
                } else {
                    flags
                };
                (OptionStorage::from_parts(Some(node), staging, flags), c, r)
            } else {
                let (node, c) = if staging is Some {
                    let (node, c, r) = element.updated(staging->0, context);
                    (node, c)
                } else {
                    element.rendered(context)
                };
                (OptionStorage::from_parts(active, Some(node), RenderFlags { swapped: true, ..flags }), c, true)
            },
            None => if active is Some {
                (OptionStorage::from_parts(active, staging, RenderFlags { swapped: true, ..flags }), context, true)
            } else {
                (storage, context, false)
            },
        }
    }

    /// Renders the element, if there is one, as the active nodes.
    fn render_children(self, context: &mut C) -> (s: OptionStorage<E::Storage>)
        ensures
            (s.active_nodes() is Some) == (self is Some),
            s.staging_nodes() is None,
            s.render_flags() == RenderFlags::cleared(),
            s.holds_one_part(),
    {
        let active = match self {
            Some(element) => Some(element.render_children(context)),
            None => None,
        };
        OptionStorage::new(active)
    }

    /// Where the element stays, the active nodes are updated in place. Where it appears,
    /// its nodes are staged (the staged ones updated, or new ones rendered) and a swap is
    /// due; where it goes away, a swap is due.
    fn update_children(self, storage: &mut OptionStorage<E::Storage>, context: &mut C) -> (changed: bool)
        ensures
            (old(storage).active_nodes() is Some && self is Some) ==> {
                &&& final(storage).active_nodes() is Some
                &&& final(storage).staging_nodes() == old(storage).staging_nodes()
                &&& final(storage).render_flags() == if changed {
                    RenderFlags { updated: true, swapped: false, ..old(storage).render_flags() }
                } else {
                    old(storage).render_flags()
                }
            },
            (old(storage).active_nodes() is None && self is Some) ==> {
                &&& changed
                &&& final(storage).active_nodes() is None
                &&& final(storage).staging_nodes() is Some
                &&& final(storage).render_flags() == (RenderFlags {
                    swapped: true,
                    ..old(storage).render_flags()
                })
            },
            (old(storage).active_nodes() is Some && self is None) ==> {
                &&& changed
                &&& final(storage).active_nodes() == old(storage).active_nodes()
                &&& final(storage).staging_nodes() is None
                &&& final(storage).render_flags() == (RenderFlags {
                    swapped: true,
                    ..old(storage).render_flags()
                })
            },
            (old(storage).active_nodes() is None && self is None) ==> {
                &&& !changed
                &&& final(storage).active_nodes() == old(storage).active_nodes()
                &&& final(storage).staging_nodes() == old(storage).staging_nodes()
                &&& final(storage).render_flags() == old(storage).render_flags()
            },
            final(storage).holds_one_part(),
    {
        proof {
            use_type_invariant(&*storage);
        }
        let changed = match self {
            Some(element) => {
                if storage.active.is_some() {
                    let mut taken: Option<E::Storage> = None;
                    std::mem::swap(&mut taken, &mut storage.active);
                    let mut node = taken.unwrap();
                    let changed = element.update_children(&mut node, context);
                    storage.active = Some(node);
                    if changed {
                        storage.flags.updated = true;
                        storage.flags.swapped = false;
                    }
                    changed
                } else {
                    let mut taken: Option<E::Storage> = None;
                    std::mem::swap(&mut taken, &mut storage.staging);
                    let node = match taken {
                        Some(mut node) => {
                            element.update_children(&mut node, context);
                            node
                        },
                        None => element.render_children(context),
                    };
                    storage.staging = Some(node);
                    storage.flags.swapped = true;
                    true
                }
            },
            None => {
                if storage.active.is_some() {
                    storage.flags.swapped = true;
                    true
                } else {
                    false
                }
            },
        };
        proof {
            use_type_invariant(&*storage);
        }
        changed
    }
}

impl<T: ViewNodeSeq<C>, C> ViewNodeSeq<C> for OptionStorage<T> {
    /// The active nodes count; the staging ones do not.
    open spec fn node_count(&self) -> nat {
        match self.active_nodes() {
            Some(node) => node.node_count(),
            None => 0,
        }
    }

    open spec fn committed(&self, mode: CommitMode, context: C) -> (Self, C, bool) {
        let active = self.active_nodes();
        let staging = self.staging_nodes();
        let flags = self.render_flags();
        if flags.swapped {
            let (leaving, c1, r1) = if flags.committed && active is Some {
                let (node, c, r) = active->0.committed(CommitMode::Unmount, context);
                (Some(node), c, r)
            } else {
                (active, context, false)
            };
            let (coming, c2, r2) = if mode != CommitMode::Unmount && staging is Some {
                let (node, c, r) = staging->0.committed(CommitMode::Mount, c1);
                (Some(node), c, r)
            } else {
                (staging, c1, false)
            };
            (OptionStorage::from_parts(coming, leaving, RenderFlags::after_commit()), c2, r1 || r2)
        } else if (flags.updated || mode != CommitMode::Update) && active is Some {
            let (node, c, r) = active->0.committed(mode, context);
            (OptionStorage::from_parts(Some(node), staging, RenderFlags::after_commit()), c, r)
        } else {
            (OptionStorage::from_parts(active, staging, RenderFlags::after_commit()), context, false)
        }
    }

    open spec fn collected(&self) -> Self {
        OptionStorage::from_parts(
            match self.active_nodes() {
                Some(node) => Some(node.collected()),
                None => None,
            },
            if self.render_flags().swapped {
                self.staging_nodes()
            } else {
                None
            },
            self.render_flags(),
        )
    }

    /// The length of the active nodes; none count for nothing.
    fn len(&self) -> (n: usize)
        ensures
            self.active_nodes() is None ==> n == 0,
    {
        match &self.active {
            Some(node) => node.len(),
            None => 0,
        }
    }

    /// Where a swap is due, the active nodes are unmounted (if they were ever committed),
    /// the staging nodes take their place and, unless the storage itself is being
    /// unmounted, are mounted. Otherwise the active nodes are committed in `mode` where
    /// they were updated or the mode reaches the whole subtree. Afterwards only the
    /// `committed` flag is set.
    fn commit(&mut self, mode: CommitMode, context: &mut C) -> (changed: bool)
        ensures
            final(self).render_flags() == RenderFlags::after_commit(),
            old(self).render_flags().swapped ==> {
                &&& (final(self).active_nodes() is Some) == (old(self).staging_nodes() is Some)
                &&& (final(self).staging_nodes() is Some) == (old(self).active_nodes() is Some)
            },
            old(self).render_flags().swapped && !old(self).render_flags().committed && mode
                == CommitMode::Unmount ==> {
                &&& !changed
                &&& final(self).active_nodes() == old(self).staging_nodes()
                &&& final(self).staging_nodes() == old(self).active_nodes()
            },
            !old(self).render_flags().swapped ==> {
                &&& (final(self).active_nodes() is Some) == (old(self).active_nodes() is Some)
                &&& final(self).staging_nodes() == old(self).staging_nodes()
            },
            !old(self).render_flags().swapped && (old(self).active_nodes() is None || !(
            old(self).render_flags().updated || mode != CommitMode::Update)) ==> {
                &&& !changed
                &&& final(self).active_nodes() == old(self).active_nodes()
            },
            final(self).holds_one_part(),
    {
        proof {
            use_type_invariant(&*self);
        }
        let mut changed = false;
        if self.flags.swapped {
            if self.flags.committed && self.active.is_some() {
                let mut taken: Option<T> = None;
                std::mem::swap(&mut taken, &mut self.active);
                let mut node = taken.unwrap();
                let r = node.commit(CommitMode::Unmount, context);
                changed = changed || r;
                self.active = Some(node);
            }
            std::mem::swap(&mut self.active, &mut self.staging);
            if mode != CommitMode::Unmount && self.active.is_some() {
                let mut taken: Option<T> = None;
                std::mem::swap(&mut taken, &mut self.active);
                let mut node = taken.unwrap();
                let r = node.commit(CommitMode::Mount, context);
                changed = changed || r;
                self.active = Some(node);
            }
        } else if self.flags.updated || mode.is_propagable() {
            if self.active.is_some() {
                let mut taken: Option<T> = None;
                std::mem::swap(&mut taken, &mut self.active);
                let mut node = taken.unwrap();
                let r = node.commit(mode, context);
                changed = changed || r;
                self.active = Some(node);
            }
        }
        self.flags = RenderFlags::committed_only();
        proof {
            use_type_invariant(&*self);
        }
        changed
    }

    /// Cleans up the active nodes, and drops the staging nodes unless a swap is due.
    fn gc(&mut self)
        ensures
            final(self).render_flags() == old(self).render_flags(),
            (final(self).active_nodes() is Some) == (old(self).active_nodes() is Some),
            final(self).staging_nodes() == if old(self).render_flags().swapped {
                old(self).staging_nodes()
            } else {
                None
            },
            final(self).holds_one_part(),
    {
        proof {
            use_type_invariant(&*self);
        }
        if self.active.is_some() {
            let mut taken: Option<T> = None;
            std::mem::swap(&mut taken, &mut self.active);
            let mut node = taken.unwrap();
            node.gc();
            self.active = Some(node);
        }
        if !self.flags.swapped {
            self.staging = None;
        }
        proof {
            use_type_invariant(&*self);
        }
    }
}

impl<T: Traversable<V, C>, V, C> Traversable<V, C> for OptionStorage<T> {
    open spec fn visited(&self, visitor: V, context: C) -> (Self, V, C) {
        match self.active_nodes() {
            Some(node) => {
                let (node, v, c) = node.visited(visitor, context);
                (OptionStorage::from_parts(Some(node), self.staging_nodes(), self.render_flags()), v, c)
            },
            None => (*self, visitor, context),
        }
    }

    open spec fn visited_id(&self, id: Id, visitor: V, context: C) -> (Self, V, C, bool) {
        match self.active_nodes() {
            Some(node) => {
                let (node, v, c, found) = node.visited_id(id, visitor, context);
                (OptionStorage::from_parts(Some(node), self.staging_nodes(), self.render_flags()), v, c, found)
            },
            None => (*self, visitor, context, false),
        }
    }

    /// Takes the visitor through the active nodes, if any.
    fn for_each(&mut self, visitor: &mut V, context: &mut C)
        ensures
            final(self).active_nodes() == match old(self).active_nodes() {
                Some(node) => Some(node.visited(*old(visitor), *old(context)).0),
                None => None,
            },
            *final(visitor) == match old(self).active_nodes() {
                Some(node) => node.visited(*old(visitor), *old(context)).1,
                None => *old(visitor),
            },
            *final(context) == match old(self).active_nodes() {
                Some(node) => node.visited(*old(visitor), *old(context)).2,
                None => *old(context),
            },
            (final(self).active_nodes() is Some) == (old(self).active_nodes() is Some),
            final(self).staging_nodes() == old(self).staging_nodes(),
            final(self).render_flags() == old(self).render_flags(),
    {
        proof {
            use_type_invariant(&*self);
        }
        if self.active.is_some() {
            let mut taken: Option<T> = None;
            std::mem::swap(&mut taken, &mut self.active);
            let mut node = taken.unwrap();
            node.for_each(visitor, context);
            self.active = Some(node);
        }
    }

    /// Takes the visitor to the node `id` among the active nodes; without active nodes
    /// there is none.
    fn for_id(&mut self, id: Id, visitor: &mut V, context: &mut C) -> (found: bool)
        ensures
            found == match old(self).active_nodes() {
                Some(node) => node.visited_id(id, *old(visitor), *old(context)).3,
                None => false,
            },
            final(self).active_nodes() == match old(self).active_nodes() {
                Some(node) => Some(node.visited_id(id, *old(visitor), *old(context)).0),
                None => None,
            },
            *final(visitor) == match old(self).active_nodes() {
                Some(node) => node.visited_id(id, *old(visitor), *old(context)).1,
                None => *old(visitor),
            },
            *final(context) == match old(self).active_nodes() {
                Some(node) => node.visited_id(id, *old(visitor), *old(context)).2,
                None => *old(context),
            },
            (final(self).active_nodes() is Some) == (old(self).active_nodes() is Some),
            final(self).staging_nodes() == old(self).staging_nodes(),
            final(self).render_flags() == old(self).render_flags(),
    {
        proof {
            use_type_invariant(&*self);
        }
        if self.active.is_some() {
            let mut taken: Option<T> = None;
            std::mem::swap(&mut taken, &mut self.active);
            let mut node = taken.unwrap();
            let found = node.for_id(id, visitor, context);
            self.active = Some(node);
            found
        } else {
            false
        }
    }
}

impl<C> ElementSeq<C> for HNil {
    type Storage = HNil;

    open spec fn rendered(self, context: C) -> (HNil, C) {
        (HNil, context)
    }

    open spec fn updated(self, storage: HNil, context: C) -> (HNil, C, bool) {
        (HNil, context, false)
    }

    fn render_children(self, context: &mut C) -> (s: HNil) {
        HNil
    }

    /// An empty list has nothing to update.
    fn update_children(self, storage: &mut HNil, context: &mut C) -> (changed: bool)
        ensures
            !changed,
    {
        false
    }
}

impl<H: ElementSeq<C>, T: ElementSeq<C> + HList, C> ElementSeq<C> for HCons<H, T> where
    T::Storage: HList,
 {
    type Storage = HCons<H::Storage, T::Storage>;

    /// The head is rendered, then the tail.
    open spec fn rendered(self, context: C) -> (HCons<H::Storage, T::Storage>, C) {
        let (head, c1) = self.head.rendered(context);
        let (tail, c2) = self.tail.rendered(c1);
        (HCons { head, tail }, c2)
    }

    /// The head is updated, then the tail; something changed where either changed.
    open spec fn updated(self, storage: HCons<H::Storage, T::Storage>, context: C) -> (HCons<H::Storage, T::Storage>, C, bool) {
        let (head, c1, r1) = self.head.updated(storage.head, context);
        let (tail, c2, r2) = self.tail.updated(storage.tail, c1);
        (HCons { head, tail }, c2, r1 || r2)
    }

    /// Renders the head, then the tail.
    fn render_children(self, context: &mut C) -> (s: HCons<H::Storage, T::Storage>) {
        let head = self.head.render_children(context);
        let tail = self.tail.render_children(context);
        HCons { head, tail }
    }

    /// Updates the head, then the tail; something changed where either changed.
    fn update_children(self, storage: &mut HCons<H::Storage, T::Storage>, context: &mut C) -> (changed: bool) {
        let head_changed = self.head.update_children(&mut storage.head, context);
        let tail_changed = self.tail.update_children(&mut storage.tail, context);
        head_changed || tail_changed
    }
}

impl<C> ViewNodeSeq<C> for HNil {
    open spec fn node_count(&self) -> nat {
        0
    }

    open spec fn committed(&self, mode: CommitMode, context: C) -> (Self, C, bool) {
        (HNil, context, false)
    }

    open spec fn collected(&self) -> Self {
        HNil
    }

    fn len(&self) -> usize {
        0
    }

    fn commit(&mut self, mode: CommitMode, context: &mut C) -> (changed: bool)
        ensures
            !changed,
    {
        false
    }

    fn gc(&mut self) {
    }
}

impl<H: ViewNodeSeq<C>, T: ViewNodeSeq<C> + HList, C> ViewNodeSeq<C> for HCons<H, T> {
    /// The nodes of head and tail, counted up to the largest `usize`.
    open spec fn node_count(&self) -> nat {
        let n = self.head.node_count() + self.tail.node_count();
        if n > usize::MAX {
            usize::MAX as nat
        } else {
            n
        }
    }

    /// The head is committed, then the tail.
    open spec fn committed(&self, mode: CommitMode, context: C) -> (Self, C, bool) {
        let (head, c1, r1) = self.head.committed(mode, context);
        let (tail, c2, r2) = self.tail.committed(mode, c1);
        (HCons { head, tail }, c2, r1 || r2)
    }

    open spec fn collected(&self) -> Self {
        HCons { head: self.head.collected(), tail: self.tail.collected() }
    }

    /// The lengths of head and tail added, saturating at the largest `usize`.
    fn len(&self) -> (n: usize) {
        self.head.len().saturating_add(self.tail.len())
    }

    /// Commits the head, then the tail; something changed where either changed.
    fn commit(&mut self, mode: CommitMode, context: &mut C) -> (changed: bool) {
        let head_changed = self.head.commit(mode, context);
        let tail_changed = self.tail.commit(mode, context);
        head_changed || tail_changed
    }

    fn gc(&mut self) {
        self.head.gc();
        self.tail.gc();
    }
}

impl<V, C> Traversable<V, C> for HNil {
    open spec fn visited(&self, visitor: V, context: C) -> (Self, V, C) {
        (HNil, visitor, context)
    }

    open spec fn visited_id(&self, id: Id, visitor: V, context: C) -> (Self, V, C, bool) {
        (HNil, visitor, context, false)
    }

    fn for_each(&mut self, visitor: &mut V, context: &mut C) {
    }

    /// An empty list holds no node.
    fn for_id(&mut self, id: Id, visitor: &mut V, context: &mut C) -> (found: bool)
        ensures
            !found,
    {
        false
    }
}

impl<H: Traversable<V, C>, T: Traversable<V, C> + HList, V, C> Traversable<V, C> for HCons<H, T> {
    /// The visitor goes through the head, then the tail.
    open spec fn visited(&self, visitor: V, context: C) -> (Self, V, C) {
        let (head, v1, c1) = self.head.visited(visitor, context);
        let (tail, v2, c2) = self.tail.visited(v1, c1);
        (HCons { head, tail }, v2, c2)
    }

    /// The node is looked for in the head, and only where it is not there in the tail.
    open spec fn visited_id(&self, id: Id, visitor: V, context: C) -> (Self, V, C, bool) {
        let (head, v1, c1, found) = self.head.visited_id(id, visitor, context);
        if found {
            (HCons { head, tail: self.tail }, v1, c1, true)
        } else {
            let (tail, v2, c2, found) = self.tail.visited_id(id, v1, c1);
            (HCons { head, tail }, v2, c2, found)
        }
    }

    fn for_each(&mut self, visitor: &mut V, context: &mut C) {
        self.head.for_each(visitor, context);
        self.tail.for_each(visitor, context);
    }

    /// Looks for `id` in the head, then, where it is not there, in the tail.
    fn for_id(&mut self, id: Id, visitor: &mut V, context: &mut C) -> (found: bool) {
        if self.head.for_id(id, visitor, context) {
            return true;
        }
        self.tail.for_id(id, visitor, context)
    }
}

impl<C> ElementSeq<C> for () {
    type Storage = ();

    open spec fn rendered(self, context: C) -> ((), C) {
        ((), context)
    }

    open spec fn updated(self, storage: (), context: C) -> ((), C, bool) {
        ((), context, false)
    }

    fn render_children(self, context: &mut C) {
    }

    /// No children, nothing to update.
    fn update_children(self, storage: &mut (), context: &mut C) -> (changed: bool)
        ensures
            !changed,
    {
        false
    }
}

impl<C> ViewNodeSeq<C> for () {
    open spec fn node_count(&self) -> nat {
        0
    }

    open spec fn committed(&self, mode: CommitMode, context: C) -> (Self, C, bool) {
        ((), context, false)
    }

    open spec fn collected(&self) -> Self {
        ()
    }

    fn len(&self) -> usize {
        0
    }

    fn commit(&mut self, mode: CommitMode, context: &mut C) -> (changed: bool)
        ensures
            !changed,
    {
        false
    }

    fn gc(&mut self) {
    }
}

impl<V, C> Traversable<V, C> for () {
    open spec fn visited(&self, visitor: V, context: C) -> (Self, V, C) {
        ((), visitor, context)
    }

    open spec fn visited_id(&self, id: Id, visitor: V, context: C) -> (Self, V, C, bool) {
        ((), visitor, context, false)
    }

    fn for_each(&mut self, visitor: &mut V, context: &mut C) {
    }

    /// No children hold no node.
    fn for_id(&mut self, id: Id, visitor: &mut V, context: &mut C) -> (found: bool)
        ensures
            !found,
    {
        false
    }
}

/// Where a swap is due and the storage is not itself being unmounted, the staged nodes
/// become active and are mounted: the new active nodes are the staged ones after a commit
/// in `Mount` mode, made with the context that unmounting the leaving nodes (where they
/// were ever committed) left behind; the leaving nodes are kept as staging nodes.
pub proof fn law_commit_mounts_staged<T: ViewNodeSeq<C>, C>(s: OptionStorage<T>, mode: CommitMode, context: C)
    requires
        s.holds_one_part(),
        s.render_flags().swapped,
        mode != CommitMode::Unmount,
        s.staging_nodes() is Some,
    ensures
        ({
            let (after, c, changed) = s.committed(mode, context);
            let (mounted, c_mounted, r_mounted) = s.staging_nodes()->0.committed(CommitMode::Mount, context);
            &&& s.active_nodes() is None
            &&& after.active_nodes() == Some(mounted)
            &&& after.staging_nodes() is None
            &&& c == c_mounted
            &&& changed == r_mounted
            &&& after.render_flags() == RenderFlags::after_commit()
        }),
{
}

/// Where a swap is due while the storage is being unmounted, nothing is mounted: the
/// staged nodes become active exactly as they were staged.
pub proof fn law_commit_unmounting_mounts_nothing<T: ViewNodeSeq<C>, C>(s: OptionStorage<T>, context: C)
    requires
        s.render_flags().swapped,
    ensures
        s.committed(CommitMode::Unmount, context).0.active_nodes() == s.staging_nodes(),
{
}

/// Where a swap is due and the leaving nodes were committed before, they are unmounted:
/// the nodes kept as staging nodes are the active ones after a commit in `Unmount` mode.
pub proof fn law_commit_unmounts_leaving<T: ViewNodeSeq<C>, C>(s: OptionStorage<T>, mode: CommitMode, context: C)
    requires
        s.render_flags().swapped,
        s.render_flags().committed,
        s.active_nodes() is Some,
    ensures
        s.committed(mode, context).0.staging_nodes() == Some(
            s.active_nodes()->0.committed(CommitMode::Unmount, context).0,
        ),
{
}

/// With the element present and no active nodes, nodes already staged are updated in
/// place with the element (not rendered anew), and a swap becomes due.
pub proof fn law_update_keeps_staged<E: ElementSeq<C>, C>(element: E, storage: OptionStorage<E::Storage>, context: C)
    requires
        storage.active_nodes() is None,
        storage.staging_nodes() is Some,
    ensures
        ({
            let (after, c, changed) = Some(element).updated(storage, context);
            let (staged, c_staged, r_staged) = element.updated(storage.staging_nodes()->0, context);
            &&& after.staging_nodes() == Some(staged)
            &&& after.active_nodes() is None
            &&& c == c_staged
            &&& changed
            &&& after.render_flags() == (RenderFlags { swapped: true, ..storage.render_flags() })
        }),
{
}

/// With the element present and nothing active or staged, the element is rendered and
/// staged, and a swap becomes due.
pub proof fn law_update_stages_rendered<E: ElementSeq<C>, C>(element: E, storage: OptionStorage<E::Storage>, context: C)
    requires
        storage.active_nodes() is None,
        storage.staging_nodes() is None,
    ensures
        ({
            let (after, c, changed) = Some(element).updated(storage, context);
            let (rendered, c_rendered) = element.rendered(context);
            &&& after.staging_nodes() == Some(rendered)
            &&& c == c_rendered
            &&& changed
        }),
{
}

/// With the element present and active nodes, those nodes are updated in place and what
/// the update answers is the answer; nothing is staged anew.
pub proof fn law_update_in_place<E: ElementSeq<C>, C>(element: E, storage: OptionStorage<E::Storage>, context: C)
    requires
        storage.active_nodes() is Some,
    ensures
        ({
            let (after, c, changed) = Some(element).updated(storage, context);
            let (updated, c_updated, r_updated) = element.updated(storage.active_nodes()->0, context);
            &&& after.active_nodes() == Some(updated)
            &&& after.staging_nodes() == storage.staging_nodes()
            &&& c == c_updated
            &&& changed == r_updated
        }),
{
}

/// Where no swap is due, the active nodes are committed in the storage's own mode when
/// they were updated or the mode reaches the whole subtree; the staging part stays.
pub proof fn law_commit_in_place<T: ViewNodeSeq<C>, C>(s: OptionStorage<T>, mode: CommitMode, context: C)
    requires
        !s.render_flags().swapped,
        s.active_nodes() is Some,
        s.render_flags().updated || mode != CommitMode::Update,
    ensures
        ({
            let (after, c, changed) = s.committed(mode, context);
            let (committed, c_committed, r_committed) = s.active_nodes()->0.committed(mode, context);
            &&& after.active_nodes() == Some(committed)
            &&& after.staging_nodes() == s.staging_nodes()
            &&& c == c_committed
            &&& changed == r_committed
            &&& after.render_flags() == RenderFlags::after_commit()
        }),
{
}

/// Where no swap is due and the active nodes were neither updated nor reached by the mode,
/// nothing is committed and only the flags change.
pub proof fn law_commit_skips_untouched<T: ViewNodeSeq<C>, C>(s: OptionStorage<T>, mode: CommitMode, context: C)
    requires
        !s.render_flags().swapped,
        !s.render_flags().updated,
        mode == CommitMode::Update,
    ensures
        ({
            let (after, c, changed) = s.committed(mode, context);
            &&& after.active_nodes() == s.active_nodes()
            &&& after.staging_nodes() == s.staging_nodes()
            &&& c == context
            &&& !changed
            &&& after.render_flags() == RenderFlags::after_commit()
        }),
{
}

/// Cleaning up cleans the active nodes, and drops the staging ones unless a swap is due.
pub proof fn law_gc<T: ViewNodeSeq<C>, C>(s: OptionStorage<T>)
    ensures
        s.collected().active_nodes() == match s.active_nodes() {
            Some(node) => Some(node.collected()),
            None => None,
        },
        s.collected().staging_nodes() == if s.render_flags().swapped {
            s.staging_nodes()
        } else {
            None
        },
        s.collected().render_flags() == s.render_flags(),
{
}

/// Without an element, active nodes are kept and a swap becomes due; with neither element
/// nor active nodes nothing changes.
pub proof fn law_update_absent<E: ElementSeq<C>, C>(storage: OptionStorage<E::Storage>, context: C)
    ensures
        ({
            let (after, c, changed) = None::<E>.updated(storage, context);
            &&& c == context
            &&& storage.active_nodes() is Some ==> {
                &&& changed
                &&& after.active_nodes() == storage.active_nodes()
                &&& after.staging_nodes() == storage.staging_nodes()
                &&& after.render_flags() == (RenderFlags { swapped: true, ..storage.render_flags() })
            }
            &&& storage.active_nodes() is None ==> !changed && after == storage
        }),
{
}

/// Rendering an element makes its nodes the active ones; rendering no element gives no
/// nodes; either way nothing is staged and no flag is set.
pub proof fn law_render<E: ElementSeq<C>, C>(element: Option<E>, context: C)
    ensures
        ({
            let (s, c) = element.rendered(context);
            &&& s.active_nodes() == match element {
                Some(e) => Some(e.rendered(context).0),
                None => None,
            }
            &&& c == match element {
                Some(e) => e.rendered(context).1,
                None => context,
            }
            &&& s.staging_nodes() is None
            &&& s.render_flags() == RenderFlags::cleared()
        }),
{
}

} // verus!
