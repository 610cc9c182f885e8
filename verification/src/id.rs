use vstd::prelude::*;

verus! {

/// The identifier of a view node; never zero. The root has id 1.
#[derive(Clone, Copy, Debug, PartialEq, Eq, Structural, Hash, PartialOrd, Ord)]
pub struct Id(u32);

/// A path of ids from below the root down to a node; the empty path is the root.
pub type IdPath = [Id];

pub type IdPathBuf = Vec<Id>;

pub type Level = u32;

impl View for Id {
    type V = u32;

    closed spec fn view(&self) -> u32 {
        self.0
    }
}

impl Id {
    #[verifier::type_invariant]
    closed spec fn nonzero(self) -> bool {
        self.0 > 0
    }

    /// The id of the root.
    pub fn root() -> (id: Id)
        ensures
            id@ == 1,
            id == Id::root_spec(),
    {
        Id(1)
    }

    /// The id with the number `id`, which must not be zero.
    pub fn new(id: u32) -> (r: Id)
        requires
            id > 0,
        ensures
            r@ == id,
    {
        Id(id)
    }

    /// The number of this id.
    pub fn get(&self) -> (n: u32)
        ensures
            n == self@,
            n > 0,
    {
        proof {
            use_type_invariant(self);
        }
        self.0
    }

    pub fn is_root(&self) -> (b: bool)
        ensures
            b == (self@ == 1),
    {
        self.0 == 1
    }

    /// The id that follows this one.
    pub fn next(&self) -> (r: Id)
        requires
            self@ < u32::MAX,
        ensures
            r@ == self@ + 1,
    {
        Id(self.0 + 1)
    }

    /// The id of the node that a path leads to: its last id, or the root's.
    pub fn from_path(id_path: &IdPath) -> (id: Id)
        ensures
            id == Id::of_path(id_path@),
    {
        if id_path.len() == 0 {
            Id::root()
        } else {
            id_path[id_path.len() - 1]
        }
    }

    pub open spec fn of_path(p: Seq<Id>) -> Id {
        if p.len() == 0 {
            Id::root_spec()
        } else {
            p.last()
        }
    }

    pub closed spec fn root_spec() -> Id {
        Id(1)
    }

    pub proof fn lemma_root_spec()
        ensures
            Id::root_spec()@ == 1,
    {
    }
}

impl From<Id> for u32 {
    fn from(id: Id) -> (n: u32) {
        id.get()
    }
}

impl vstd::std_specs::convert::FromSpecImpl<Id> for u32 {
    open spec fn obeys_from_spec() -> bool {
        true
    }

    open spec fn from_spec(v: Id) -> u32 {
        v@
    }
}

impl<'a> From<&'a [Id]> for Id {
    fn from(id_path: &'a [Id]) -> (id: Id) {
        Id::from_path(id_path)
    }
}

impl<'a> vstd::std_specs::convert::FromSpecImpl<&'a [Id]> for Id {
    open spec fn obeys_from_spec() -> bool {
        true
    }

    open spec fn from_spec(v: &'a [Id]) -> Id {
        Id::of_path(v@)
    }
}

/// Who listens to an atom: the path of a node and its level.
#[derive(Clone, Debug)]
pub struct Subscriber {
    pub id_path: IdPathBuf,
    pub level: Level,
}

/// The path to the node being visited, and a counter that hands out fresh ids.
#[derive(Debug)]
pub struct IdStack {
    id_path: IdPathBuf,
    next_id: Id,
}

impl IdStack {
    /// The path that the stack holds.
    pub closed spec fn path(&self) -> Seq<Id> {
        self.id_path@
    }

    /// The id that `next` hands out next.
    pub closed spec fn upcoming(&self) -> Id {
        self.next_id
    }

    /// An empty path; fresh ids start after the root's.
    pub fn new() -> (s: IdStack)
        ensures
            s.path() == Seq::<Id>::empty(),
            s.upcoming()@ == 2,
    {
        IdStack { id_path: Vec::new(), next_id: Id::root().next() }
    }

    /// The id of the node the path leads to.
    pub fn id(&self) -> (id: Id)
        ensures
            id == Id::of_path(self.path()),
    {
        Id::from_path(self.id_path.as_slice())
    }

    pub fn id_path(&self) -> (p: &IdPath)
        ensures
            p@ == self.path(),
    {
        self.id_path.as_slice()
    }

    /// Goes down to a child; the root's id is never a child.
    pub fn push(&mut self, id: Id)
        requires
            id@ != 1,
        ensures
            final(self).path() == old(self).path().push(id),
            final(self).upcoming() == old(self).upcoming(),
    {
        self.id_path.push(id);
    }

    /// Goes back up; the path must not be empty.
    pub fn pop(&mut self)
        requires
            old(self).path().len() > 0,
        ensures
            final(self).path() == old(self).path().drop_last(),
            final(self).upcoming() == old(self).upcoming(),
    {
        self.id_path.pop();
    }

    /// Hands out a fresh id.
    pub fn next(&mut self) -> (id: Id)
        requires
            old(self).upcoming()@ < u32::MAX,
        ensures
            id == old(self).upcoming(),
            final(self).upcoming()@ == id@ + 1,
            final(self).path() == old(self).path(),
    {
        let id = self.next_id;
        self.next_id = id.next();
        id
    }

    /// Going down to a child and back up leaves the path as it was.
    pub proof fn law_push_then_pop(&self, id: Id)
        ensures
            self.path().push(id).drop_last() == self.path(),
    {
        assert(self.path().push(id).drop_last() =~= self.path());
    }
}

} // verus!
