use vstd::prelude::*;

use crate::id::{Id, IdPath, Level, Subscriber};

verus! {

/// The first subscriber whose path is `path`.
pub open spec fn subscriber_of(subs: Seq<Subscriber>, path: Seq<Id>) -> Option<int>
    decreases subs.len(),
{
    if subs.len() == 0 {
        None
    } else if subs[0].id_path@ == path {
        Some(0)
    } else {
        match subscriber_of(subs.drop_first(), path) {
            Some(i) => Some(i + 1),
            None => None,
        }
    }
}

proof fn lemma_subscriber_of(subs: Seq<Subscriber>, path: Seq<Id>, j: int)
    requires
        0 <= j <= subs.len(),
        forall|t: int| 0 <= t < j ==> (#[trigger] subs[t]).id_path@ != path,
        j < subs.len() ==> subs[j].id_path@ == path,
    ensures
        subscriber_of(subs, path) == if j < subs.len() {
            Some(j)
        } else {
            None::<int>
        },
    decreases subs.len(),
{
    if subs.len() > 0 && j > 0 {
        assert forall|t: int| 0 <= t < j - 1 implies (#[trigger] subs.drop_first()[t]).id_path@ != path by {
            assert(subs.drop_first()[t] == subs[t + 1]);
        }
        lemma_subscriber_of(subs.drop_first(), path, j - 1);
        if j < subs.len() {
            assert(subs.drop_first()[j - 1] == subs[j]);
        }
        assert(subs[0].id_path@ != path);
    }
}

/// `new` is `old` after the node at `path` subscribed at `level`: the first subscriber with
/// that path keeps the higher of the two levels, or a new subscriber joins at the end.
pub open spec fn subscribed(old: Seq<Subscriber>, new: Seq<Subscriber>, path: Seq<Id>, level: Level) -> bool {
    match subscriber_of(old, path) {
        Some(i) => {
            &&& new.len() == old.len()
            &&& forall|j: int| 0 <= j < old.len() && j != i ==> #[trigger] new[j] == old[j]
            &&& new[i].id_path == old[i].id_path
            &&& new[i].level == if old[i].level < level {
                level
            } else {
                old[i].level
            }
        },
        None => {
            &&& new.len() == old.len() + 1
            &&& forall|j: int| 0 <= j < old.len() ==> #[trigger] new[j] == old[j]
            &&& new.last().id_path@ == path
            &&& new.last().level == level
        },
    }
}

/// No two subscribers share a path.
pub open spec fn paths_distinct(subs: Seq<Subscriber>) -> bool {
    forall|i: int, j: int|
        0 <= i < j < subs.len() ==> (#[trigger] subs[i]).id_path@ != (#[trigger] subs[j]).id_path@
}

/// Subscribing keeps one subscriber per path: an existing subscriber with the path is
/// changed in place, and a new one joins only where none has the path.
pub proof fn law_subscribe_keeps_paths_distinct(a: Seq<Subscriber>, b: Seq<Subscriber>, path: Seq<Id>, level: Level)
    requires
        paths_distinct(a),
        subscribed(a, b, path, level),
    ensures
        paths_distinct(b),
{
    match subscriber_of(a, path) {
        Some(i) => {
            lemma_subscriber_of_index(a, path);
            assert forall|x: int, y: int| 0 <= x < y < b.len() implies (#[trigger] b[x]).id_path@ != (#[trigger] b[y]).id_path@ by {
                assert(b[x].id_path == a[x].id_path);
                assert(b[y].id_path == a[y].id_path);
                assert(a[x].id_path@ != a[y].id_path@);
            }
        },
        None => {
            lemma_subscriber_of_none(a, path);
            assert forall|x: int, y: int| 0 <= x < y < b.len() implies (#[trigger] b[x]).id_path@ != (#[trigger] b[y]).id_path@ by {
                assert(b[x] == a[x]);
                if y < a.len() {
                    assert(b[y] == a[y]);
                    assert(a[x].id_path@ != a[y].id_path@);
                } else {
                    assert(a[x].id_path@ != path);
                }
            }
        },
    }
}

/// Subscribing twice with the same path and level changes nothing the second time.
pub proof fn law_subscribe_twice(a: Seq<Subscriber>, b: Seq<Subscriber>, c: Seq<Subscriber>, path: Seq<Id>, level: Level)
    requires
        subscribed(a, b, path, level),
        subscribed(b, c, path, level),
    ensures
        c =~= b,
{
    match subscriber_of(a, path) {
        Some(i) => {
            lemma_subscriber_of_index(a, path);
            assert forall|t: int| 0 <= t < i implies (#[trigger] b[t]).id_path@ != path by {
                assert(b[t] == a[t]);
            }
            lemma_subscriber_of(b, path, i);
        },
        None => {
            lemma_subscriber_of_none(a, path);
            assert forall|t: int| 0 <= t < a.len() implies (#[trigger] b[t]).id_path@ != path by {
                assert(b[t] == a[t]);
            }
            lemma_subscriber_of(b, path, a.len() as int);
        },
    }
}

proof fn lemma_subscriber_of_index(subs: Seq<Subscriber>, path: Seq<Id>)
    ensures
        subscriber_of(subs, path) matches Some(i) ==> 0 <= i < subs.len() && subs[i].id_path@ == path
            && forall|t: int| 0 <= t < i ==> (#[trigger] subs[t]).id_path@ != path,
    decreases subs.len(),
{
    if subs.len() > 0 {
        lemma_subscriber_of_index(subs.drop_first(), path);
        if let Some(i) = subscriber_of(subs, path) {
            if i > 0 {
                assert forall|t: int| 0 <= t < i implies (#[trigger] subs[t]).id_path@ != path by {
                    if t > 0 {
                        assert(subs[t] == subs.drop_first()[t - 1]);
                    }
                }
            }
        }
    }
}

proof fn lemma_subscriber_of_none(subs: Seq<Subscriber>, path: Seq<Id>)
    ensures
        subscriber_of(subs, path) is None ==> forall|t: int| 0 <= t < subs.len() ==> (#[trigger] subs[t]).id_path@ != path,
    decreases subs.len(),
{
    if subs.len() > 0 {
        lemma_subscriber_of_none(subs.drop_first(), path);
        if subscriber_of(subs, path) is None {
            assert forall|t: int| 0 <= t < subs.len() implies (#[trigger] subs[t]).id_path@ != path by {
                if t > 0 {
                    assert(subs[t] == subs.drop_first()[t - 1]);
                }
            }
        }
    }
}

/// Whether two paths hold the same ids.
pub fn same_path(a: &IdPath, b: &IdPath) -> (r: bool)
    ensures
        r == (a@ == b@),
{
    if a.len() != b.len() {
        return false;
    }
    let mut i: usize = 0;
    while i < a.len()
        invariant
            i <= a.len(),
            a.len() == b.len(),
            forall|j: int| 0 <= j < i ==> a@[j] == b@[j],
        decreases a.len() - i,
    {
        if a[i] != b[i] {
            return false;
        }
        i = i + 1;
    }
    proof {
        assert(a@ =~= b@);
    }
    true
}

/// A shared value that remembers who read it, so that they can be told when it changes.
#[derive(Debug)]
pub struct Atom<T> {
    value: T,
    subscribers: Vec<Subscriber>,
}

impl<T> Atom<T> {
    pub closed spec fn value_of(&self) -> T {
        self.value
    }

    /// The subscribers, in the order they first subscribed.
    pub closed spec fn subscribers_of(&self) -> Seq<Subscriber> {
        self.subscribers@
    }

    /// A value that nobody listens to yet.
    pub fn new(value: T) -> (a: Self)
        ensures
            a.value_of() == value,
            a.subscribers_of() == Seq::<Subscriber>::empty(),
    {
        Atom { value, subscribers: Vec::new() }
    }

    pub fn get(&self) -> (r: &T)
        ensures
            *r == self.value_of(),
    {
        &self.value
    }

    /// Replaces the value and hands out the subscribers, who are forgotten.
    pub fn set(&mut self, new_value: T) -> (subscribers: Vec<Subscriber>)
        ensures
            final(self).value_of() == new_value,
            final(self).subscribers_of() == Seq::<Subscriber>::empty(),
            subscribers@ == old(self).subscribers_of(),
    {
        self.value = new_value;
        let mut taken: Vec<Subscriber> = Vec::new();
        std::mem::swap(&mut taken, &mut self.subscribers);
        taken
    }

    /// Changes the value with `f` and hands out the subscribers, who are forgotten.
    pub fn update<F: FnOnce(&mut T)>(&mut self, f: F) -> (subscribers: Vec<Subscriber>)
        requires
            forall|v: &mut T| #[trigger] f.requires((v,)),
        ensures
            exists|v: &mut T|
                *v == old(self).value_of() && *final(v) == final(self).value_of() && #[trigger] f.ensures((v,), ()),
            final(self).subscribers_of() == Seq::<Subscriber>::empty(),
            subscribers@ == old(self).subscribers_of(),
    {
        f(&mut self.value);
        let mut taken: Vec<Subscriber> = Vec::new();
        std::mem::swap(&mut taken, &mut self.subscribers);
        taken
    }

    /// Records that the node at `id_path` reads the value at `level`; a node already
    /// subscribed keeps the higher of its two levels.
    pub fn subscribe(&mut self, id_path: &IdPath, level: Level)
        ensures
            final(self).value_of() == old(self).value_of(),
            subscribed(old(self).subscribers_of(), final(self).subscribers_of(), id_path@, level),
            paths_distinct(old(self).subscribers_of()) ==> paths_distinct(final(self).subscribers_of()),
    {
        let mut i: usize = 0;
        while i < self.subscribers.len()
            invariant
                i <= self.subscribers.len(),
                self.subscribers@ == old(self).subscribers@,
                self.value == old(self).value,
                forall|t: int| 0 <= t < i ==> (#[trigger] self.subscribers@[t]).id_path@ != id_path@,
            decreases self.subscribers.len() - i,
        {
            if same_path(self.subscribers[i].id_path.as_slice(), id_path) {
                proof {
                    lemma_subscriber_of(self.subscribers@, id_path@, i as int);
                }
                if self.subscribers[i].level < level {
                    self.subscribers[i].level = level;
                }
                proof {
                    if paths_distinct(old(self).subscribers_of()) {
                        law_subscribe_keeps_paths_distinct(old(self).subscribers_of(), self.subscribers@, id_path@, level);
                    }
                }
                return;
            }
            i = i + 1;
        }
        proof {
            lemma_subscriber_of(self.subscribers@, id_path@, i as int);
        }
        let mut path: Vec<Id> = Vec::new();
        let mut k: usize = 0;
        while k < id_path.len()
            invariant
                k <= id_path.len(),
                path@ == id_path@.take(k as int),
            decreases id_path.len() - k,
        {
            path.push(id_path[k]);
            k = k + 1;
            proof {
                assert(path@ =~= id_path@.take(k as int));
            }
        }
        proof {
            assert(path@ =~= id_path@);
        }
        self.subscribers.push(Subscriber { id_path: path, level });
        proof {
            if paths_distinct(old(self).subscribers_of()) {
                law_subscribe_keeps_paths_distinct(old(self).subscribers_of(), self.subscribers@, id_path@, level);
            }
        }
    }
}

} // verus!
