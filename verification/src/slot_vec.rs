use vstd::prelude::*;

verus! {

/// A slot of a `SlotVec`: a non-negative number is the position of the entry that fills
/// the slot, a negative number `-(p + 1)` says that the slot is free and stands at
/// position `p` of the free list.
#[derive(Clone, Copy, PartialEq, Eq, Debug, Structural)]
pub struct Slot(pub isize);

impl Slot {
    pub open spec fn spec_is_filled(self) -> bool {
        self.0 >= 0
    }

    /// The entry position of a filled slot.
    pub open spec fn spec_entry(self) -> int {
        self.0 as int
    }

    /// The free-list position of a free slot.
    pub open spec fn spec_free_position(self) -> int {
        -(self.0 as int) - 1
    }

    pub fn filled(index: usize) -> (slot: Slot)
        requires
            index <= isize::MAX,
        ensures
            slot.spec_is_filled(),
            slot.spec_entry() == index,
    {
        Slot(index as isize)
    }

    pub fn free(index: usize) -> (slot: Slot)
        requires
            index < isize::MAX,
        ensures
            !slot.spec_is_filled(),
            slot.spec_free_position() == index,
    {
        let n = (index + 1) as isize;
        Slot(-n)
    }

    pub fn is_filled(&self) -> (b: bool)
        ensures
            b == self.spec_is_filled(),
    {
        self.0 >= 0
    }

    pub fn is_free(&self) -> (b: bool)
        ensures
            b == !self.spec_is_filled(),
    {
        self.0 < 0
    }

    pub fn force_free(&self) -> (p: usize)
        requires
            !self.spec_is_filled(),
        ensures
            p == self.spec_free_position(),
    {
        (-(self.0 + 1)) as usize
    }

    pub fn force_filled(&self) -> (e: usize)
        requires
            self.spec_is_filled(),
        ensures
            e == self.spec_entry(),
    {
        self.0 as usize
    }

    pub fn as_filled(&self) -> (r: Option<usize>)
        ensures
            r == (if self.spec_is_filled() {
                Some(self.spec_entry() as usize)
            } else {
                None::<usize>
            }),
    {
        if self.is_filled() {
            Some(self.force_filled())
        } else {
            None
        }
    }
}

/// The position of `v` in `f` is taken out: the last element of `f` moves into its place.
pub open spec fn free_list_remove(f: Seq<usize>, v: usize) -> Seq<usize> {
    f.update(f.index_of(v), f.last()).drop_last()
}

/// The free list after the trailing free slots `to .. from` have been dropped, highest first.
pub open spec fn free_list_trim(f: Seq<usize>, from: nat, to: nat) -> Seq<usize>
    decreases from - to,
{
    if from <= to {
        f
    } else {
        free_list_remove(free_list_trim(f, from, to + 1), to as usize)
    }
}

/// One more than the greatest slot index that an entry fills, or 0 where there is no entry.
pub open spec fn occupied_bound<T>(e: Seq<(usize, T)>) -> nat
    decreases e.len(),
{
    if e.len() == 0 {
        0
    } else {
        let rest = occupied_bound(e.drop_last());
        let top = (e.last().0 + 1) as nat;
        if rest < top {
            top
        } else {
            rest
        }
    }
}

/// References to the values of `s`, in order, each with its slot index.
fn entry_refs<'a, T>(s: &'a mut [(usize, T)]) -> (r: Vec<(usize, &'a mut T)>)
    ensures
        r@.len() == old(s)@.len(),
        forall|k: int| 0 <= k < r@.len() ==> r@[k].0 == old(s)@[k].0 && *r@[k].1 == old(s)@[k].1,
        final(s)@.len() == old(s)@.len(),
        forall|k: int| 0 <= k < r@.len() ==> final(s)@[k] == (old(s)@[k].0, *final(r@[k].1)),
    decreases old(s)@.len(),
{
    if s.len() == 0 {
        return Vec::new();
    }
    let (head, tail) = s.split_at_mut(1);
    let mut r = entry_refs(tail);
    let h = &mut head[0];
    r.insert(0, (h.0, &mut h.1));
    r
}

/// References to the values of `s`, in order.
fn value_refs<'a, T>(s: &'a mut [(usize, T)]) -> (r: Vec<&'a mut T>)
    ensures
        r@.len() == old(s)@.len(),
        forall|k: int| 0 <= k < r@.len() ==> *r@[k] == old(s)@[k].1,
        final(s)@.len() == old(s)@.len(),
        forall|k: int| 0 <= k < r@.len() ==> final(s)@[k] == (old(s)@[k].0, *final(r@[k])),
    decreases old(s)@.len(),
{
    if s.len() == 0 {
        return Vec::new();
    }
    let (head, tail) = s.split_at_mut(1);
    let mut r = value_refs(tail);
    let h = &mut head[0];
    r.insert(0, &mut h.1);
    r
}

/// A vector whose values keep the index (slot) under which they were inserted. Freed slots
/// are reused, the most recently freed one first.
#[derive(Debug)]
pub struct SlotVec<T> {
    entries: Vec<(usize, T)>,
    slots: Vec<Slot>,
    free_indexes: Vec<usize>,
}

impl<T> View for SlotVec<T> {
    type V = Map<usize, T>;

    /// The values by their slot index.
    closed spec fn view(&self) -> Map<usize, T> {
        Map::new(
            |i: usize| self.spec_has(i),
            |i: usize| self.entries@[self.slots@[i as int].spec_entry()].1,
        )
    }
}

impl<T> SlotVec<T> {
    /// The entries in storage order: slot index and value.
    pub closed spec fn entry_seq(&self) -> Seq<(usize, T)> {
        self.entries@
    }

    /// The free slot indexes; the last one is used next.
    pub closed spec fn free_seq(&self) -> Seq<usize> {
        self.free_indexes@
    }

    /// The number of slots, filled or free.
    pub closed spec fn slot_count(&self) -> nat {
        self.slots@.len()
    }

    /// The slots themselves.
    pub closed spec fn slot_seq(&self) -> Seq<Slot> {
        self.slots@
    }

    pub closed spec fn spec_has(&self, i: usize) -> bool {
        i < self.slots@.len() && self.slots@[i as int].spec_is_filled()
    }

    /// The position in `entry_seq` of the entry that fills slot `i`.
    pub closed spec fn entry_position(&self, i: usize) -> int {
        self.slots@[i as int].spec_entry()
    }

    /// The slot index that `insert` uses next.
    pub open spec fn spec_next_slot_index(&self) -> usize {
        if self.free_seq().len() > 0 {
            self.free_seq().last()
        } else {
            self.slot_count() as usize
        }
    }

    /// Everything but that the last slot is filled.
    closed spec fn wf_core(&self) -> bool {
        let e = self.entries@;
        let s = self.slots@;
        let f = self.free_indexes@;
        &&& s.len() <= isize::MAX
        &&& s.len() == e.len() + f.len()
        &&& forall|j: int|
            0 <= j < e.len() ==> (#[trigger] e[j]).0 < s.len() && s[e[j].0 as int].spec_is_filled()
                && s[e[j].0 as int].spec_entry() == j
        &&& forall|p: int|
            0 <= p < f.len() ==> #[trigger] f[p] < s.len() && !s[f[p] as int].spec_is_filled()
                && s[f[p] as int].spec_free_position() == p
        &&& forall|i: int|
            0 <= i < s.len() ==> {
                let sl = #[trigger] s[i];
                &&& sl.spec_is_filled() ==> 0 <= sl.spec_entry() < e.len() && e[sl.spec_entry()].0
                    == i
                &&& !sl.spec_is_filled() ==> 0 <= sl.spec_free_position() < f.len()
                    && f[sl.spec_free_position()] == i
            }
    }

    /// The well-formedness of a slot vector: slots, entries and free list agree, and the
    /// last slot is always filled.
    pub closed spec fn wf(&self) -> bool {
        &&& self.wf_core()
        &&& self.slots@.len() > 0 ==> self.slots@.last().spec_is_filled()
    }

    proof fn lemma_free_no_duplicates(&self)
        requires
            self.wf_core(),
        ensures
            forall|p: int, q: int|
                0 <= p < self.free_indexes@.len() && 0 <= q < self.free_indexes@.len()
                    && self.free_indexes@[p] == self.free_indexes@[q] ==> p == q,
            forall|p: int|
                0 <= p < self.free_indexes@.len() ==> self.free_indexes@.index_of(
                    #[trigger] self.free_indexes@[p],
                ) == p,
    {
        let f = self.free_indexes@;
        assert forall|p: int, q: int|
            0 <= p < f.len() && 0 <= q < f.len() && f[p] == f[q] implies p == q by {
            assert(f[p] == f[q]);
        }
        assert forall|p: int| 0 <= p < f.len() implies f.index_of(#[trigger] f[p]) == p by {
            let k = f.index_of(f[p]);
            assert(0 <= k < f.len() && f[k] == f[p]);
        }
    }

    proof fn lemma_occupied_bound_ge(e: Seq<(usize, T)>)
        ensures
            forall|j: int| 0 <= j < e.len() ==> (#[trigger] e[j]).0 < occupied_bound(e),
            e.len() > 0 ==> exists|j: int|
                0 <= j < e.len() && (#[trigger] e[j]).0 + 1 == occupied_bound(e),
        decreases e.len(),
    {
        if e.len() > 0 {
            Self::lemma_occupied_bound_ge(e.drop_last());
            let d = e.drop_last();
            assert forall|j: int| 0 <= j < e.len() implies (#[trigger] e[j]).0 < occupied_bound(
                e,
            ) by {
                if j < e.len() - 1 {
                    assert(e[j] == d[j]);
                }
            }
            if occupied_bound(d) < (e.last().0 + 1) as nat {
                assert(e[e.len() - 1].0 + 1 == occupied_bound(e));
            } else {
                let j = choose|j: int| 0 <= j < d.len() && (#[trigger] d[j]).0 + 1 == occupied_bound(d);
                assert(e[j] == d[j]);
            }
        }
    }

    /// Under `wf`, the slot count is one more than the highest filled slot index.
    proof fn lemma_slot_count_is_occupied_bound(&self)
        requires
            self.wf(),
        ensures
            self.slots@.len() == occupied_bound(self.entries@),
    {
        let e = self.entries@;
        let s = self.slots@;
        Self::lemma_occupied_bound_ge(e);
        if s.len() > 0 {
            let last = s.len() - 1;
            assert(s[last].spec_is_filled());
            let j = s[last].spec_entry();
            assert(e[j].0 == last);
            assert(occupied_bound(e) >= s.len());
            if e.len() > 0 {
                let k = choose|k: int| 0 <= k < e.len() && (#[trigger] e[k]).0 + 1 == occupied_bound(e);
                assert(e[k].0 < s.len());
            }
        } else {
            if e.len() > 0 {
                assert(e[0].0 < s.len());
            }
        }
    }

    pub fn new() -> (v: SlotVec<T>)
        ensures
            v.wf(),
            v.entry_seq() == Seq::<(usize, T)>::empty(),
            v.free_seq() == Seq::<usize>::empty(),
            v.slot_count() == 0,
            v@ == Map::<usize, T>::empty(),
    {
        let v = SlotVec { entries: Vec::new(), slots: Vec::new(), free_indexes: Vec::new() };
        assert(v@ =~= Map::<usize, T>::empty());
        v
    }

    pub fn with_capacity(capacity: usize) -> (v: SlotVec<T>)
        ensures
            v.wf(),
            v.entry_seq() == Seq::<(usize, T)>::empty(),
            v.free_seq() == Seq::<usize>::empty(),
            v.slot_count() == 0,
            v@ == Map::<usize, T>::empty(),
    {
        let v = SlotVec {
            entries: Vec::with_capacity(capacity),
            slots: Vec::with_capacity(capacity),
            free_indexes: Vec::new(),
        };
        assert(v@ =~= Map::<usize, T>::empty());
        v
    }

    /// Stores `value` in the most recently freed slot, or in a new slot at the end, and
    /// returns the slot index.
    #[verifier::spinoff_prover]
    pub fn insert(&mut self, value: T) -> (slot_index: usize)
        requires
            old(self).wf(),
            old(self).slot_count() < isize::MAX,
        ensures
            final(self).wf(),
            slot_index == old(self).spec_next_slot_index(),
            !old(self)@.contains_key(slot_index),
            final(self)@ == old(self)@.insert(slot_index, value),
            final(self).entry_seq() == old(self).entry_seq().push((slot_index, value)),
            old(self).free_seq().len() > 0 ==> final(self).free_seq() == old(
                self,
            ).free_seq().drop_last() && final(self).slot_count() == old(self).slot_count(),
            old(self).free_seq().len() == 0 ==> final(self).free_seq() == old(self).free_seq()
                && final(self).slot_count() == old(self).slot_count() + 1,
    {
        let ghost old_self = *self;
        let slot_index = if let Some(slot_index) = self.free_indexes.pop() {
            proof {
                let f = old_self.free_indexes@;
                assert(f[f.len() - 1] == slot_index);
            }
            let s = Slot::filled(self.entries.len());
            self.slots.set(slot_index, s);
            slot_index
        } else {
            let slot_index = self.slots.len();
            let s = Slot::filled(slot_index);
            self.slots.push(s);
            slot_index
        };
        self.entries.push((slot_index, value));
        proof {
            let e0 = old_self.entries@;
            let s0 = old_self.slots@;
            let f0 = old_self.free_indexes@;
            let e = self.entries@;
            let s = self.slots@;
            let f = self.free_indexes@;
            assert forall|j: int| 0 <= j < e.len() implies (#[trigger] e[j]).0 < s.len()
                && s[e[j].0 as int].spec_is_filled() && s[e[j].0 as int].spec_entry() == j by {
                if j < e0.len() {
                    assert(e[j] == e0[j]);
                    assert(s0[e0[j].0 as int].spec_entry() == j);
                }
            }
            assert forall|p: int| 0 <= p < f.len() implies #[trigger] f[p] < s.len()
                && !s[f[p] as int].spec_is_filled() && s[f[p] as int].spec_free_position()
                == p by {
                assert(f[p] == f0[p]);
            }
            assert forall|i: int| 0 <= i < s.len() implies {
                let sl = #[trigger] s[i];
                &&& sl.spec_is_filled() ==> 0 <= sl.spec_entry() < e.len() && e[sl.spec_entry()].0
                    == i
                &&& !sl.spec_is_filled() ==> 0 <= sl.spec_free_position() < f.len()
                    && f[sl.spec_free_position()] == i
            } by {
                if i != slot_index {
                    assert(s[i] == s0[i]);
                    if !s0[i].spec_is_filled() {
                        let p = s0[i].spec_free_position();
                        assert(f0[p] == i);
                        if f0.len() > 0 {
                            assert(p != f0.len() - 1);
                        }
                    }
                }
            }
            assert(self@ =~= old_self@.insert(slot_index, value));
        }
        slot_index
    }

    /// Removes the free slot index at `position` of the free list; the last free index moves
    /// into its place.
    #[verifier::spinoff_prover]
    fn take_free_index(&mut self, position: usize) -> (slot_index: usize)
        requires
            position < old(self).free_indexes@.len(),
            old(self).free_indexes@.last() < old(self).slots@.len(),
            old(self).slots@.len() <= isize::MAX,
            old(self).free_indexes@.len() <= isize::MAX,
        ensures
            slot_index == old(self).free_indexes@[position as int],
            final(self).free_indexes@ == old(self).free_indexes@.update(
                position as int,
                old(self).free_indexes@.last(),
            ).drop_last(),
            final(self).entries@ == old(self).entries@,
            position == old(self).free_indexes@.len() - 1 ==> final(self).slots@ == old(
                self,
            ).slots@,
            position != old(self).free_indexes@.len() - 1 ==> final(self).slots@ == old(
                self,
            ).slots@.update(old(self).free_indexes@.last() as int, Slot(-(position + 1) as isize)),
    {
        if position == self.free_indexes.len() - 1 {
            let r = self.free_indexes.pop().unwrap();
            proof {
                assert(self.free_indexes@ =~= old(self).free_indexes@.update(
                    position as int,
                    old(self).free_indexes@.last(),
                ).drop_last());
            }
            r
        } else {
            let free_slot_index = self.free_indexes.swap_remove(position);
            let swap_slot_index = self.free_indexes[position];
            let s = Slot::free(position);
            self.slots.set(swap_slot_index, s);
            free_slot_index
        }
    }

    /// Drops the trailing free slots.
    #[verifier::spinoff_prover]
    fn truncate_to_fit(&mut self)
        requires
            old(self).wf_core(),
        ensures
            final(self).wf(),
            final(self).entries@ == old(self).entries@,
            final(self).slots@.len() == occupied_bound(old(self).entries@),
            final(self).slots@.len() <= old(self).slots@.len(),
            final(self).free_indexes@ == free_list_trim(
                old(self).free_indexes@,
                old(self).slots@.len(),
                final(self).slots@.len(),
            ),
            forall|i: int|
                0 <= i < final(self).slots@.len() ==> (#[trigger] final(self).slots@[i]).spec_is_filled()
                    == old(self).slots@[i].spec_is_filled(),
            forall|i: int|
                0 <= i < final(self).slots@.len() && (#[trigger] final(self).slots@[i]).spec_is_filled()
                    ==> final(self).slots@[i] == old(self).slots@[i],
    {
        let ghost s0 = self.slots@;
        let ghost f0 = self.free_indexes@;
        while self.slots.len() > 0 && self.slots[self.slots.len() - 1].is_free()
            invariant
                self.wf_core(),
                self.entries@ == old(self).entries@,
                s0 == old(self).slots@,
                f0 == old(self).free_indexes@,
                self.slots@.len() <= s0.len(),
                self.free_indexes@ == free_list_trim(f0, s0.len(), self.slots@.len()),
                forall|i: int| 0 <= i < self.slots@.len() ==> (#[trigger] self.slots@[i]).spec_is_filled()
                    == s0[i].spec_is_filled(),
                forall|i: int|
                    0 <= i < self.slots@.len() && (#[trigger] self.slots@[i]).spec_is_filled()
                        ==> self.slots@[i] == s0[i],
            decreases self.slots@.len(),
        {
            let ghost before = *self;
            let last = self.slots.len() - 1;
            let position = self.slots[last].force_free();
            proof {
                before.lemma_free_no_duplicates();
                assert(before.free_indexes@[position as int] == last);
            }
            let taken = self.take_free_index(position);
            self.slots.pop();
            proof {
                let f = before.free_indexes@;
                let s = before.slots@;
                let e = before.entries@;
                assert(f.index_of(last as usize) == position);
                assert(self.free_indexes@ == free_list_remove(f, last as usize));
                assert(free_list_trim(f0, s0.len(), last as nat) == free_list_remove(
                    free_list_trim(f0, s0.len(), (last + 1) as nat),
                    last as usize,
                ));
                let s1 = self.slots@;
                let f1 = self.free_indexes@;
                assert forall|j: int| 0 <= j < e.len() implies (#[trigger] e[j]).0 < s1.len()
                    && s1[e[j].0 as int].spec_is_filled() && s1[e[j].0 as int].spec_entry()
                    == j by {
                    assert(s[e[j].0 as int].spec_is_filled());
                    assert(e[j].0 != last);
                    if position != f.len() - 1 {
                        assert(f[f.len() - 1] != e[j].0);
                    }
                }
                assert forall|p: int| 0 <= p < f1.len() implies #[trigger] f1[p] < s1.len()
                    && !s1[f1[p] as int].spec_is_filled() && s1[f1[p] as int].spec_free_position()
                    == p by {
                    if p == position {
                        assert(f1[p] == f[f.len() - 1]);
                        assert(f[f.len() - 1] != last);
                    } else {
                        assert(f1[p] == f[p]);
                        assert(f[p] != last);
                        if position != f.len() - 1 {
                            assert(f[f.len() - 1] != f[p]);
                        }
                    }
                }
                assert forall|i: int| 0 <= i < s1.len() implies {
                    let sl = #[trigger] s1[i];
                    &&& sl.spec_is_filled() ==> 0 <= sl.spec_entry() < e.len()
                        && e[sl.spec_entry()].0 == i
                    &&& !sl.spec_is_filled() ==> 0 <= sl.spec_free_position() < f1.len()
                        && f1[sl.spec_free_position()] == i
                } by {
                    if position != f.len() - 1 && i == f[f.len() - 1] {
                        assert(s1[i] == Slot(-(position + 1) as isize));
                    } else {
                        assert(s1[i] == s[i]);
                        if !s[i].spec_is_filled() {
                            let p = s[i].spec_free_position();
                            assert(f[p] == i);
                            assert(p != position);
                            if p == f.len() - 1 {
                                assert(position == f.len() - 1);
                            }
                        }
                    }
                }
                assert forall|i: int| 0 <= i < s1.len() implies (#[trigger] s1[i]).spec_is_filled()
                    == s0[i].spec_is_filled() by {
                    assert(s1[i].spec_is_filled() == s[i].spec_is_filled());
                }
            }
        }
        proof {
            self.lemma_slot_count_is_occupied_bound();
        }
    }

    /// Appends free slots until there are `slot_index` slots.
    #[verifier::spinoff_prover]
    fn extend_until(&mut self, slot_index: usize)
        requires
            old(self).wf_core(),
            old(self).slots@.len() <= slot_index < isize::MAX,
        ensures
            final(self).wf_core(),
            final(self).entries@ == old(self).entries@,
            final(self).slots@.len() == slot_index,
            final(self).free_indexes@ == old(self).free_indexes@ + Seq::new(
                (slot_index - old(self).slots@.len()) as nat,
                |k: int| (old(self).slots@.len() + k) as usize,
            ),
            forall|i: int|
                0 <= i < old(self).slots@.len() ==> final(self).slots@[i] == old(self).slots@[i],
    {
        let start = self.slots.len();
        while self.slots.len() < slot_index
            invariant
                self.wf_core(),
                self.entries@ == old(self).entries@,
                start == old(self).slots@.len(),
                start <= self.slots@.len() <= slot_index < isize::MAX,
                self.free_indexes@ == old(self).free_indexes@ + Seq::new(
                    (self.slots@.len() - start) as nat,
                    |k: int| (start + k) as usize,
                ),
                forall|i: int| 0 <= i < start ==> self.slots@[i] == old(self).slots@[i],
            decreases slot_index - self.slots@.len(),
        {
            let ghost before = *self;
            let index = self.slots.len();
            let s = Slot::free(self.free_indexes.len());
            self.slots.push(s);
            self.free_indexes.push(index);
            proof {
                let e = self.entries@;
                let s0 = before.slots@;
                let f0 = before.free_indexes@;
                let s1 = self.slots@;
                let f1 = self.free_indexes@;
                assert forall|j: int| 0 <= j < e.len() implies (#[trigger] e[j]).0 < s1.len()
                    && s1[e[j].0 as int].spec_is_filled() && s1[e[j].0 as int].spec_entry()
                    == j by {
                    assert(s1[e[j].0 as int] == s0[e[j].0 as int]);
                }
                assert forall|p: int| 0 <= p < f1.len() implies #[trigger] f1[p] < s1.len()
                    && !s1[f1[p] as int].spec_is_filled() && s1[f1[p] as int].spec_free_position()
                    == p by {
                    if p < f0.len() {
                        assert(f1[p] == f0[p]);
                    }
                }
                assert forall|i: int| 0 <= i < s1.len() implies {
                    let sl = #[trigger] s1[i];
                    &&& sl.spec_is_filled() ==> 0 <= sl.spec_entry() < e.len()
                        && e[sl.spec_entry()].0 == i
                    &&& !sl.spec_is_filled() ==> 0 <= sl.spec_free_position() < f1.len()
                        && f1[sl.spec_free_position()] == i
                } by {
                    if i < s0.len() {
                        assert(s1[i] == s0[i]);
                        if !s0[i].spec_is_filled() {
                            assert(f1[s0[i].spec_free_position()] == f0[s0[i].spec_free_position()]);
                        }
                    }
                }
                assert(self.free_indexes@ =~= old(self).free_indexes@ + Seq::new(
                    (self.slots@.len() - start) as nat,
                    |k: int| (start + k) as usize,
                ));
            }
        }
    }

    /// Stores `value` under the given free (or not yet existing) slot index; a filled
    /// slot is not accepted.
    #[verifier::spinoff_prover]
    pub fn insert_at(&mut self, slot_index: usize, value: T)
        requires
            old(self).wf(),
            !old(self)@.contains_key(slot_index),
            slot_index < isize::MAX,
        ensures
            final(self).wf(),
            final(self)@ == old(self)@.insert(slot_index, value),
            final(self).entry_seq() == old(self).entry_seq().push((slot_index, value)),
            slot_index < old(self).slot_count() ==> final(self).slot_count() == old(
                self,
            ).slot_count() && final(self).free_seq() == free_list_remove(
                old(self).free_seq(),
                slot_index,
            ),
            slot_index >= old(self).slot_count() ==> final(self).slot_count() == slot_index + 1
                && final(self).free_seq() == old(self).free_seq() + Seq::new(
                (slot_index - old(self).slot_count()) as nat,
                |k: int| (old(self).slot_count() + k) as usize,
            ),
    {
        let ghost old_self = *self;
        if slot_index < self.slots.len() {
            let free_position = self.slots[slot_index].force_free();
            proof {
                old_self.lemma_free_no_duplicates();
                assert(old_self.free_indexes@[free_position as int] == slot_index);
                assert(old_self.free_indexes@.index_of(slot_index) == free_position);
            }
            let free_slot_index = self.take_free_index(free_position);
            let s = Slot::filled(self.entries.len());
            self.slots.set(slot_index, s);
            proof {
                let f = old_self.free_indexes@;
                let s0 = old_self.slots@;
                let e = old_self.entries@;
                let f1 = self.free_indexes@;
                let s1 = self.slots@;
                let position = free_position as int;
                let e1 = e.push((slot_index, value));
                assert forall|j: int| 0 <= j < e1.len() implies (#[trigger] e1[j]).0 < s1.len()
                    && s1[e1[j].0 as int].spec_is_filled() && s1[e1[j].0 as int].spec_entry()
                    == j by {
                    if j < e.len() {
                        assert(e1[j] == e[j]);
                        assert(s0[e[j].0 as int].spec_is_filled());
                        if position != f.len() - 1 {
                            assert(f[f.len() - 1] != e[j].0);
                        }
                    }
                }
                assert forall|p: int| 0 <= p < f1.len() implies #[trigger] f1[p] < s1.len()
                    && !s1[f1[p] as int].spec_is_filled() && s1[f1[p] as int].spec_free_position()
                    == p by {
                    if p == position {
                        assert(f1[p] == f[f.len() - 1]);
                    } else {
                        assert(f1[p] == f[p]);
                        if position != f.len() - 1 {
                            assert(f[f.len() - 1] != f[p]);
                        }
                    }
                }
                assert forall|i: int| 0 <= i < s1.len() implies {
                    let sl = #[trigger] s1[i];
                    &&& sl.spec_is_filled() ==> 0 <= sl.spec_entry() < e1.len()
                        && e1[sl.spec_entry()].0 == i
                    &&& !sl.spec_is_filled() ==> 0 <= sl.spec_free_position() < f1.len()
                        && f1[sl.spec_free_position()] == i
                } by {
                    if i == slot_index {
                    } else if position != f.len() - 1 && i == f[f.len() - 1] {
                        assert(s1[i] == Slot(-(position + 1) as isize));
                    } else {
                        assert(s1[i] == s0[i]);
                        if s0[i].spec_is_filled() {
                            assert(e1[s0[i].spec_entry()] == e[s0[i].spec_entry()]);
                        } else {
                            let p = s0[i].spec_free_position();
                            assert(f[p] == i);
                            assert(p != position);
                            if p == f.len() - 1 {
                                assert(position == f.len() - 1);
                            }
                        }
                    }
                }
                if s0.len() > 0 {
                    let last = s0.len() - 1;
                    assert(s0[last].spec_is_filled());
                    if position != f.len() - 1 {
                        assert(f[f.len() - 1] != last);
                    }
                }
            }
        } else {
            self.extend_until(slot_index);
            let s = Slot::filled(self.entries.len());
            self.slots.push(s);
            proof {
                let e = old_self.entries@;
                let f1 = self.free_indexes@;
                let s1 = self.slots@;
                let e1 = e.push((slot_index, value));
                let mid = s1.drop_last();
                assert forall|j: int| 0 <= j < e1.len() implies (#[trigger] e1[j]).0 < s1.len()
                    && s1[e1[j].0 as int].spec_is_filled() && s1[e1[j].0 as int].spec_entry()
                    == j by {
                    if j < e.len() {
                        assert(e1[j] == e[j]);
                        assert(s1[e[j].0 as int] == mid[e[j].0 as int]);
                    }
                }
                assert forall|p: int| 0 <= p < f1.len() implies #[trigger] f1[p] < s1.len()
                    && !s1[f1[p] as int].spec_is_filled() && s1[f1[p] as int].spec_free_position()
                    == p by {
                    assert(s1[f1[p] as int] == mid[f1[p] as int]);
                }
                assert forall|i: int| 0 <= i < s1.len() implies {
                    let sl = #[trigger] s1[i];
                    &&& sl.spec_is_filled() ==> 0 <= sl.spec_entry() < e1.len()
                        && e1[sl.spec_entry()].0 == i
                    &&& !sl.spec_is_filled() ==> 0 <= sl.spec_free_position() < f1.len()
                        && f1[sl.spec_free_position()] == i
                } by {
                    if i < mid.len() {
                        assert(s1[i] == mid[i]);
                        if mid[i].spec_is_filled() {
                            assert(e1[mid[i].spec_entry()] == e[mid[i].spec_entry()]);
                        }
                    }
                }
            }
        }
        self.entries.push((slot_index, value));
        proof {
            assert(self@ =~= old_self@.insert(slot_index, value)) by {
                let s1 = self.slots@;
                let s0 = old_self.slots@;
                assert forall|i: usize| #[trigger] self@.contains_key(i) == old_self@.insert(slot_index, value).contains_key(i) by {
                    if i < s0.len() && i != slot_index {
                        if !s0[i as int].spec_is_filled() && slot_index < s0.len() {
                            let f = old_self.free_indexes@;
                            let p = s0[i as int].spec_free_position();
                            assert(f[p] == i);
                        }
                    }
                }
            }
        }
    }

    /// The well-formedness of a slot vector in which slot `k` is filled by no entry and is
    /// in no free position.
    closed spec fn wf_without(&self, k: usize) -> bool {
        let e = self.entries@;
        let s = self.slots@;
        let f = self.free_indexes@;
        &&& s.len() <= isize::MAX
        &&& k < s.len()
        &&& s.len() == e.len() + f.len() + 1
        &&& forall|j: int|
            0 <= j < e.len() ==> (#[trigger] e[j]).0 < s.len() && e[j].0 != k
                && s[e[j].0 as int].spec_is_filled() && s[e[j].0 as int].spec_entry() == j
        &&& forall|p: int|
            0 <= p < f.len() ==> #[trigger] f[p] < s.len() && f[p] != k
                && !s[f[p] as int].spec_is_filled() && s[f[p] as int].spec_free_position() == p
        &&& forall|i: int|
            0 <= i < s.len() && i != k ==> {
                let sl = #[trigger] s[i];
                &&& sl.spec_is_filled() ==> 0 <= sl.spec_entry() < e.len() && e[sl.spec_entry()].0
                    == i
                &&& !sl.spec_is_filled() ==> 0 <= sl.spec_free_position() < f.len()
                    && f[sl.spec_free_position()] == i
            }
        &&& k != s.len() - 1 ==> s.last().spec_is_filled()
    }

    /// Turns the unreferenced slot `k` into the next free slot, or drops it with the free
    /// slots before it where it is the last slot.
    #[verifier::spinoff_prover]
    fn release_slot(&mut self, k: usize)
        requires
            old(self).wf_without(k),
        ensures
            final(self).wf(),
            final(self).entries@ == old(self).entries@,
            forall|i: usize|
                #![trigger final(self).spec_has(i)]
                final(self).spec_has(i) == (i != k && old(self).spec_has(i)),
            forall|i: usize|
                final(self).spec_has(i) ==> #[trigger] final(self).slots@[i as int] == old(
                    self,
                ).slots@[i as int],
            final(self).slots@.len() <= old(self).slots@.len(),
            k == old(self).slots@.len() - 1 ==> final(self).slots@.len() == occupied_bound(
                old(self).entries@,
            ) && final(self).free_indexes@ == free_list_trim(
                old(self).free_indexes@,
                k as nat,
                final(self).slots@.len(),
            ),
            k != old(self).slots@.len() - 1 ==> final(self).slots@.len() == old(
                self,
            ).slots@.len() && final(self).free_indexes@ == old(self).free_indexes@.push(k),
    {
        let ghost mid = *self;
        if k == self.slots.len() - 1 {
            self.slots.pop();
            proof {
                let e1 = self.entries@;
                let s1 = self.slots@;
                let f = self.free_indexes@;
                assert forall|j: int| 0 <= j < e1.len() implies (#[trigger] e1[j]).0 < s1.len()
                    && s1[e1[j].0 as int].spec_is_filled() && s1[e1[j].0 as int].spec_entry()
                    == j by {
                    assert(mid.slots@[e1[j].0 as int].spec_is_filled());
                }
                assert forall|p: int| 0 <= p < f.len() implies #[trigger] f[p] < s1.len()
                    && !s1[f[p] as int].spec_is_filled() && s1[f[p] as int].spec_free_position()
                    == p by {
                    assert(f[p] != k);
                }
                assert forall|i: int| 0 <= i < s1.len() implies {
                    let sl = #[trigger] s1[i];
                    &&& sl.spec_is_filled() ==> 0 <= sl.spec_entry() < e1.len()
                        && e1[sl.spec_entry()].0 == i
                    &&& !sl.spec_is_filled() ==> 0 <= sl.spec_free_position() < f.len()
                        && f[sl.spec_free_position()] == i
                } by {
                    assert(s1[i] == mid.slots@[i]);
                }
                assert(self.wf_core());
            }
            self.truncate_to_fit();
            proof {
                Self::lemma_occupied_bound_ge(self.entries@);
                assert forall|i: usize|
                    #![trigger self.spec_has(i)]
                    self.spec_has(i) == (i != k && mid.spec_has(i)) by {
                    if i != k && mid.spec_has(i) {
                        let j = mid.slots@[i as int].spec_entry();
                        assert(self.entries@[j].0 == i);
                    }
                }
            }
        } else {
            let s = Slot::free(self.free_indexes.len());
            self.slots.set(k, s);
            self.free_indexes.push(k);
            proof {
                let e1 = self.entries@;
                let s1 = self.slots@;
                let f0 = mid.free_indexes@;
                let f1 = self.free_indexes@;
                assert forall|j: int| 0 <= j < e1.len() implies (#[trigger] e1[j]).0 < s1.len()
                    && s1[e1[j].0 as int].spec_is_filled() && s1[e1[j].0 as int].spec_entry()
                    == j by {
                    assert(mid.slots@[e1[j].0 as int].spec_is_filled());
                }
                assert forall|p: int| 0 <= p < f1.len() implies #[trigger] f1[p] < s1.len()
                    && !s1[f1[p] as int].spec_is_filled() && s1[f1[p] as int].spec_free_position()
                    == p by {
                    if p < f0.len() {
                        assert(f1[p] == f0[p]);
                    }
                }
                assert forall|i: int| 0 <= i < s1.len() implies {
                    let sl = #[trigger] s1[i];
                    &&& sl.spec_is_filled() ==> 0 <= sl.spec_entry() < e1.len()
                        && e1[sl.spec_entry()].0 == i
                    &&& !sl.spec_is_filled() ==> 0 <= sl.spec_free_position() < f1.len()
                        && f1[sl.spec_free_position()] == i
                } by {
                    if i != k {
                        assert(s1[i] == mid.slots@[i]);
                        if !s1[i].spec_is_filled() {
                            assert(f1[s1[i].spec_free_position()] == f0[s1[i].spec_free_position()]);
                        }
                    }
                }
                let last = s1.len() - 1;
                assert(s1[last] == mid.slots@[last]);
            }
        }
    }

    /// Takes the value out of a filled slot. The last entry moves into the place of the
    /// removed one; the slot becomes the next free slot, or, where it was the last slot, it
    /// and the free slots before it are dropped. The slot must be filled.
    #[verifier::spinoff_prover]
    pub fn remove(&mut self, slot_index: usize) -> (value: T)
        requires
            old(self).wf(),
            old(self)@.contains_key(slot_index),
        ensures
            final(self).wf(),
            value == old(self)@[slot_index],
            final(self)@ == old(self)@.remove(slot_index),
            final(self).slot_count() <= old(self).slot_count(),
            final(self).entry_seq() == old(self).entry_seq().update(
                old(self).entry_position(slot_index),
                old(self).entry_seq().last(),
            ).drop_last(),
            slot_index == old(self).slot_count() - 1 ==> final(self).slot_count()
                == occupied_bound(final(self).entry_seq()) && final(self).free_seq()
                == free_list_trim(
                old(self).free_seq(),
                (old(self).slot_count() - 1) as nat,
                final(self).slot_count(),
            ),
            slot_index != old(self).slot_count() - 1 ==> final(self).slot_count() == old(
                self,
            ).slot_count() && final(self).free_seq() == old(self).free_seq().push(slot_index),
    {
        let ghost old_self = *self;
        let entry_index = self.slots[slot_index].force_filled();
        let last_entry = self.entries.len() - 1;
        let value;
        if entry_index == last_entry {
            let entry = self.entries.pop().unwrap();
            value = entry.1;
            proof {
                assert(self.entries@ =~= old_self.entries@.update(
                    entry_index as int,
                    old_self.entries@.last(),
                ).drop_last());
            }
        } else {
            let swap_slot_index = self.entries[last_entry].0;
            let s = Slot::filled(entry_index);
            self.slots.set(swap_slot_index, s);
            let entry = self.entries.swap_remove(entry_index);
            value = entry.1;
        }
        let ghost mid = *self;
        proof {
            let e0 = old_self.entries@;
            let s0 = old_self.slots@;
            let f = old_self.free_indexes@;
            let e1 = self.entries@;
            let s1 = self.slots@;
            assert forall|j: int| 0 <= j < e1.len() implies (#[trigger] e1[j]).0 < s1.len()
                && e1[j].0 != slot_index && s1[e1[j].0 as int].spec_is_filled()
                && s1[e1[j].0 as int].spec_entry() == j by {
                if j == entry_index {
                    assert(e1[j] == e0[last_entry as int]);
                } else {
                    assert(e1[j] == e0[j]);
                }
            }
            assert forall|p: int| 0 <= p < f.len() implies #[trigger] f[p] < s1.len()
                && f[p] != slot_index && !s1[f[p] as int].spec_is_filled()
                && s1[f[p] as int].spec_free_position() == p by {
                if entry_index != last_entry {
                    assert(s0[e0[last_entry as int].0 as int].spec_is_filled());
                }
            }
            assert forall|i: int| 0 <= i < s1.len() && i != slot_index implies {
                let sl = #[trigger] s1[i];
                &&& sl.spec_is_filled() ==> 0 <= sl.spec_entry() < e1.len()
                    && e1[sl.spec_entry()].0 == i
                &&& !sl.spec_is_filled() ==> 0 <= sl.spec_free_position() < f.len()
                    && f[sl.spec_free_position()] == i
            } by {
                if entry_index != last_entry && i == e0[last_entry as int].0 {
                } else {
                    assert(s1[i] == s0[i]);
                    if s0[i].spec_is_filled() {
                        let j = s0[i].spec_entry();
                        assert(j != entry_index);
                        assert(e1[j] == e0[j]);
                    }
                }
            }
            if slot_index != s0.len() - 1 {
                let last = s0.len() - 1;
                assert(s0[last].spec_is_filled());
            }
            assert(self.wf_without(slot_index));
        }
        self.release_slot(slot_index);
        proof {
            assert(self@ =~= old_self@.remove(slot_index)) by {
                assert forall|i: usize| #[trigger] self@.contains_key(i) == old_self@.remove(slot_index).contains_key(i) by {
                    assert(self.spec_has(i) == (i != slot_index && mid.spec_has(i)));
                    if i != slot_index && i < old_self.slots@.len() {
                        if entry_index != last_entry && i == old_self.entries@[last_entry as int].0 {
                        } else {
                            assert(mid.slots@[i as int] == old_self.slots@[i as int]);
                        }
                    }
                }
                assert forall|i: usize| #[trigger] self@.contains_key(i) implies self@[i] == old_self@[i] by {
                    assert(self.spec_has(i));
                    assert(self.slots@[i as int] == mid.slots@[i as int]);
                    if entry_index != last_entry && i == old_self.entries@[last_entry as int].0 {
                    } else {
                        assert(mid.slots@[i as int] == old_self.slots@[i as int]);
                    }
                }
            }
        }
        value
    }

    pub fn get(&self, slot_index: usize) -> (r: Option<&T>)
        requires
            self.wf(),
        ensures
            r == (if self@.contains_key(slot_index) {
                Some(&self@[slot_index])
            } else {
                None::<&T>
            }),
    {
        if slot_index < self.slots.len() {
            if let Some(entry_index) = self.slots[slot_index].as_filled() {
                return Some(&self.entries[entry_index].1);
            }
        }
        None
    }

    pub fn get_mut(&mut self, slot_index: usize) -> (r: Option<&mut T>)
        requires
            old(self).wf(),
        ensures
            old(self)@.contains_key(slot_index) ==> {
                &&& r.is_some()
                &&& *r.unwrap() == old(self)@[slot_index]
                &&& final(self).wf()
                &&& final(self)@ == old(self)@.insert(slot_index, *final(r.unwrap()))
                &&& final(self).entry_seq() == old(self).entry_seq().update(
                    old(self).entry_position(slot_index),
                    (slot_index, *final(r.unwrap())),
                )
                &&& final(self).free_seq() == old(self).free_seq()
                &&& final(self).slot_seq() == old(self).slot_seq()
                &&& final(self).slot_count() == old(self).slot_count()
            },
            !old(self)@.contains_key(slot_index) ==> r.is_none() && *final(self) == *old(self),
    {
        if slot_index < self.slots.len() && self.slots[slot_index].is_filled() {
            let entry_index = self.slots[slot_index].force_filled();
            let entry = &mut self.entries[entry_index];
            Some(&mut entry.1)
        } else {
            None
        }
    }

    /// The value in slot `slot_index`, which must be filled.
    pub fn index(&self, slot_index: usize) -> (r: &T)
        requires
            self.wf(),
            self@.contains_key(slot_index),
        ensures
            *r == self@[slot_index],
    {
        self.get(slot_index).unwrap()
    }

    /// The value in slot `slot_index`, open to change; the slot must be filled.
    pub fn index_mut(&mut self, slot_index: usize) -> (r: &mut T)
        requires
            old(self).wf(),
            old(self)@.contains_key(slot_index),
        ensures
            *r == old(self)@[slot_index],
            final(self).wf(),
            final(self)@ == old(self)@.insert(slot_index, *final(r)),
            final(self).free_seq() == old(self).free_seq(),
            final(self).slot_seq() == old(self).slot_seq(),
            final(self).slot_count() == old(self).slot_count(),
    {
        self.get_mut(slot_index).unwrap()
    }

    pub fn has(&self, slot_index: usize) -> (b: bool)
        requires
            self.wf(),
        ensures
            b == self@.contains_key(slot_index),
    {
        slot_index < self.slots.len() && self.slots[slot_index].is_filled()
    }

    pub fn clear(&mut self)
        ensures
            final(self).wf(),
            final(self).entry_seq() == Seq::<(usize, T)>::empty(),
            final(self).free_seq() == Seq::<usize>::empty(),
            final(self).slot_count() == 0,
            final(self)@ == Map::<usize, T>::empty(),
    {
        self.entries = Vec::new();
        self.slots = Vec::new();
        self.free_indexes = Vec::new();
        proof {
            assert(self@ =~= Map::<usize, T>::empty());
        }
    }

    /// The number of values.
    pub fn len(&self) -> (n: usize)
        requires
            self.wf(),
        ensures
            n == self.entry_seq().len(),
            n == self@.len(),
    {
        proof {
            self.lemma_len_is_map_len();
        }
        self.entries.len()
    }

    pub fn slot_size(&self) -> (n: usize)
        ensures
            n == self.slot_count(),
    {
        self.slots.len()
    }

    pub fn next_slot_index(&self) -> (i: usize)
        ensures
            i == self.spec_next_slot_index(),
    {
        let n = self.free_indexes.len();
        if n > 0 {
            self.free_indexes[n - 1]
        } else {
            self.slots.len()
        }
    }

    /// The values in storage order.
    pub fn iter(&self) -> (r: Vec<&T>)
        ensures
            r@.len() == self.entry_seq().len(),
            forall|k: int| 0 <= k < r@.len() ==> *r@[k] == self.entry_seq()[k].1,
    {
        let mut r: Vec<&T> = Vec::new();
        let mut k: usize = 0;
        while k < self.entries.len()
            invariant
                k <= self.entries@.len(),
                r@.len() == k,
                forall|m: int| 0 <= m < k ==> *r@[m] == self.entries@[m].1,
            decreases self.entries@.len() - k,
        {
            r.push(&self.entries[k].1);
            k = k + 1;
        }
        r
    }

    /// The slot indexes and values in storage order.
    pub fn entries(&self) -> (r: Vec<(usize, &T)>)
        ensures
            r@.len() == self.entry_seq().len(),
            forall|k: int|
                0 <= k < r@.len() ==> r@[k].0 == self.entry_seq()[k].0 && *r@[k].1
                    == self.entry_seq()[k].1,
    {
        let mut r: Vec<(usize, &T)> = Vec::new();
        let mut k: usize = 0;
        while k < self.entries.len()
            invariant
                k <= self.entries@.len(),
                r@.len() == k,
                forall|m: int|
                    0 <= m < k ==> r@[m].0 == self.entries@[m].0 && *r@[m].1 == self.entries@[m].1,
            decreases self.entries@.len() - k,
        {
            let entry = &self.entries[k];
            r.push((entry.0, &entry.1));
            k = k + 1;
        }
        r
    }

    /// The values in the slots `ids`, in that order, each open to change; the other
    /// values stay as they are.
    #[verifier::spinoff_prover]
    pub fn get_many_mut(&mut self, ids: Vec<usize>) -> (r: Vec<(usize, &mut T)>)
        requires
            old(self).wf(),
            ids@.no_duplicates(),
            forall|i: int| 0 <= i < ids.len() ==> old(self)@.contains_key(#[trigger] ids@[i]),
        ensures
            r@.len() == ids@.len(),
            forall|i: int| 0 <= i < r@.len() ==> (#[trigger] r@[i]).0 == ids@[i] && *r@[i].1 == old(self)@[ids@[i]],
            final(self).wf(),
            final(self).slot_seq() == old(self).slot_seq(),
            final(self).free_seq() == old(self).free_seq(),
            final(self).slot_count() == old(self).slot_count(),
            final(self)@.dom() == old(self)@.dom(),
            forall|i: int| 0 <= i < r@.len() ==> final(self)@[ids@[i]] == *final((#[trigger] r@[i]).1),
            forall|n: usize| old(self)@.contains_key(n) && !ids@.contains(n) ==> #[trigger] final(self)@[n] == old(self)@[n],
    {
        let ghost o = *self;
        let mut positions: Vec<usize> = Vec::new();
        let mut i: usize = 0;
        while i < ids.len()
            invariant
                *self == o,
                o.wf(),
                i <= ids.len(),
                positions@.len() == i,
                forall|j: int| 0 <= j < ids.len() ==> o@.contains_key(#[trigger] ids@[j]),
                forall|j: int| 0 <= j < i ==> #[trigger] positions@[j] == o.entry_position(ids@[j]),
            decreases ids.len() - i,
        {
            assert(o@.contains_key(ids@[i as int]));
            positions.push(self.slots[ids[i]].force_filled());
            i = i + 1;
        }
        proof {
            assert forall|a: int, b: int| 0 <= a < b < positions@.len() implies positions@[a] != positions@[b] by {
                assert(ids@[a] != ids@[b]);
                assert(o.entries@[positions@[a] as int].0 == ids@[a]);
                assert(o.entries@[positions@[b] as int].0 == ids@[b]);
            }
            assert forall|j: int| 0 <= j < positions@.len() implies #[trigger] positions@[j] < o.entries@.len() by {}
        }
        let mut refs = value_refs(self.entries.as_mut_slice());
        let ghost refs0 = refs@;
        let n = refs.len();
        let mut slots_of: Vec<Option<&mut T>> = Vec::new();
        let mut k: usize = 0;
        while k < n
            invariant
                k <= n,
                slots_of@.len() == k,
                forall|m: int| 0 <= m < k ==> #[trigger] slots_of@[m] is None,
            decreases n - k,
        {
            slots_of.push(None);
            k = k + 1;
        }
        while refs.len() > 0
            invariant
                slots_of@.len() == n,
                refs0.len() == n,
                refs@.len() <= n,
                refs@ == refs0.take(refs@.len() as int),
                forall|m: int| 0 <= m < refs@.len() ==> #[trigger] slots_of@[m] is None,
                forall|m: int| refs@.len() <= m < n ==> #[trigger] slots_of@[m] == Some(refs0[m]),
            decreases refs.len(),
        {
            let ghost before = refs@;
            let x = refs.pop().unwrap();
            let m = refs.len();
            proof {
                assert(before == refs0.take(m + 1));
                assert(x == before.last());
                assert(x == refs0[m as int]);
            }
            let ghost prev_slots = slots_of@;
            let filled = Some(x);
            slots_of.set(m, filled);
            proof {
                assert(refs@ =~= refs0.take(m as int));
                assert(slots_of@ == prev_slots.update(m as int, Some(x)));
                assert forall|q: int| refs@.len() <= q < n implies #[trigger] slots_of@[q] == Some(refs0[q]) by {
                    if q == m {
                        assert(slots_of@[q] == Some(x));
                    } else {
                        assert(slots_of@[q] == prev_slots[q]);
                    }
                }
            }
        }
        let mut r: Vec<(usize, &mut T)> = Vec::new();
        let mut i: usize = 0;
        while i < ids.len()
            invariant
                i <= ids.len(),
                slots_of@.len() == n,
                refs0.len() == n,
                positions@.len() == ids@.len(),
                forall|a: int, b: int| 0 <= a < b < positions@.len() ==> positions@[a] != positions@[b],
                forall|j: int| 0 <= j < positions@.len() ==> #[trigger] positions@[j] < n,
                r@.len() == i,
                forall|j: int| 0 <= j < i ==> (#[trigger] r@[j]).0 == ids@[j] && r@[j].1 == refs0[positions@[j] as int],
                forall|m: int|
                    0 <= m < n ==> (#[trigger] slots_of@[m] == if exists|j: int| 0 <= j < i && positions@[j] == m {
                        None
                    } else {
                        Some(refs0[m])
                    }),
            decreases ids.len() - i,
        {
            let p = positions[i];
            let x = slots_of[p].take();
            proof {
                assert(forall|j: int| 0 <= j < i ==> positions@[j] != p);
            }
            r.push((ids[i], x.unwrap()));
            i = i + 1;
            proof {
                assert forall|m: int|
                    0 <= m < n implies (#[trigger] slots_of@[m] == if exists|j: int| 0 <= j < i && positions@[j] == m {
                        None
                    } else {
                        Some(refs0[m])
                    }) by {
                    if m == p {
                        assert(positions@[i - 1] == m);
                    }
                }
            }
        }
        proof {
            assert(has_resolved(slots_of));
            assert forall|m: int| 0 <= m < n && !(exists|j: int| 0 <= j < ids.len() && positions@[j] == m) implies *final(refs0[m]) == *refs0[m] by {
                assert(slots_of@[m] == Some(refs0[m]));
                assert(has_resolved(slots_of@[m]));
                assert(has_resolved(slots_of@[m]->0));
            }
        }
        r
    }

    /// The values in storage order, each open to change.
    pub fn iter_mut(&mut self) -> (r: Vec<&mut T>)
        requires
            old(self).wf(),
        ensures
            r@.len() == old(self).entry_seq().len(),
            forall|k: int| 0 <= k < r@.len() ==> *r@[k] == old(self).entry_seq()[k].1,
            final(self).wf(),
            final(self).slot_seq() == old(self).slot_seq(),
            final(self).free_seq() == old(self).free_seq(),
            final(self).entry_seq().len() == old(self).entry_seq().len(),
            forall|k: int|
                0 <= k < r@.len() ==> final(self).entry_seq()[k] == (old(self).entry_seq()[k].0, *final(r@[k])),
            final(self)@.dom() == old(self)@.dom(),
            forall|k: int| 0 <= k < r@.len() ==> final(self)@[old(self).entry_seq()[k].0] == *final(#[trigger] r@[k]),
    {
        value_refs(self.entries.as_mut_slice())
    }

    /// The slot indexes and values in storage order, the values open to change.
    pub fn entries_mut(&mut self) -> (r: Vec<(usize, &mut T)>)
        requires
            old(self).wf(),
        ensures
            r@.len() == old(self).entry_seq().len(),
            forall|k: int|
                0 <= k < r@.len() ==> r@[k].0 == old(self).entry_seq()[k].0 && *r@[k].1
                    == old(self).entry_seq()[k].1,
            final(self).wf(),
            final(self).slot_seq() == old(self).slot_seq(),
            final(self).free_seq() == old(self).free_seq(),
            final(self).entry_seq().len() == old(self).entry_seq().len(),
            forall|k: int|
                0 <= k < r@.len() ==> final(self).entry_seq()[k] == (old(self).entry_seq()[k].0, *final(r@[k].1)),
            final(self)@.dom() == old(self)@.dom(),
            forall|k: int| 0 <= k < r@.len() ==> final(self)@[(#[trigger] r@[k]).0] == *final(r@[k].1),
    {
        entry_refs(self.entries.as_mut_slice())
    }

    /// The free slot indexes, the next one to be used last.
    pub fn free_indexes(&self) -> (r: &[usize])
        ensures
            r@ == self.free_seq(),
    {
        self.free_indexes.as_slice()
    }

    /// The slots.
    pub fn slots(&self) -> (r: &[Slot])
        ensures
            r@ == self.slot_seq(),
    {
        self.slots.as_slice()
    }

    proof fn lemma_len_is_map_len(&self)
        requires
            self.wf(),
        ensures
            self.entries@.len() == self@.len(),
            self@.dom().finite(),
    {
        let e = self.entries@;
        let keys = Seq::new(e.len(), |j: int| e[j].0);
        assert forall|a: int, b: int| 0 <= a < keys.len() && 0 <= b < keys.len() && a != b implies keys[a] != keys[b] by {
            assert(self.slots@[e[a].0 as int].spec_entry() == a);
            assert(self.slots@[e[b].0 as int].spec_entry() == b);
        }
        assert(keys.no_duplicates());
        assert(self@.dom() =~= keys.to_set()) by {
            assert forall|i: usize| #[trigger] self@.dom().contains(i) implies keys.to_set().contains(i) by {
                let j = self.slots@[i as int].spec_entry();
                assert(keys[j] == i);
            }
            assert forall|i: usize| #[trigger] keys.to_set().contains(i) implies self@.dom().contains(i) by {
                let j = choose|j: int| 0 <= j < keys.len() && keys[j] == i;
                assert(e[j].0 == i);
            }
        }
        keys.unique_seq_to_set();
    }

    /// Inserting a value and then removing it again, at the slot index `insert` hands
    /// out, gives back the values held before.
    pub proof fn law_insert_then_remove(&self, value: T)
        requires
            self.wf(),
        ensures
            !self@.contains_key(self.spec_next_slot_index()),
            self@.insert(self.spec_next_slot_index(), value).remove(self.spec_next_slot_index()) == self@,
    {
        let k = self.spec_next_slot_index();
        if self.free_seq().len() > 0 {
            let f = self.free_indexes@;
            assert(f[f.len() - 1] == k);
        }
        assert(self@.insert(k, value).remove(k) =~= self@);
    }

    /// The entries in storage order are the values of the map, each under its own slot
    /// index; `entry_position` is where a slot's entry stands in that order.
    pub proof fn law_entries_match_view(&self)
        requires
            self.wf(),
        ensures
            self.entry_seq().len() == self@.len(),
            forall|k: int|
                0 <= k < self.entry_seq().len() ==> {
                    &&& self@.contains_key((#[trigger] self.entry_seq()[k]).0)
                    &&& self@[self.entry_seq()[k].0] == self.entry_seq()[k].1
                    &&& self.entry_position(self.entry_seq()[k].0) == k
                },
            forall|i: usize|
                #[trigger] self@.contains_key(i) ==> {
                    &&& 0 <= self.entry_position(i) < self.entry_seq().len()
                    &&& self.entry_seq()[self.entry_position(i)] == (i, self@[i])
                },
    {
        self.lemma_len_is_map_len();
    }

    /// Every slot is below the slot count and either holds a value or is free, not both;
    /// the free slots are listed once each; the slot count is one past the highest
    /// filled slot.
    pub proof fn law_slots(&self)
        requires
            self.wf(),
        ensures
            forall|p: int|
                0 <= p < self.free_seq().len() ==> (#[trigger] self.free_seq()[p]) < self.slot_count()
                    && !self@.contains_key(self.free_seq()[p]),
            self.free_seq().no_duplicates(),
            forall|i: usize| #[trigger] self@.contains_key(i) ==> i < self.slot_count(),
            forall|i: usize|
                i < self.slot_count() && !#[trigger] self@.contains_key(i) ==> self.free_seq().contains(i),
            self.slot_count() == self@.len() + self.free_seq().len(),
            self.slot_count() == occupied_bound(self.entry_seq()),
    {
        self.lemma_len_is_map_len();
        self.lemma_free_no_duplicates();
        self.lemma_slot_count_is_occupied_bound();
        let f = self.free_indexes@;
        assert forall|i: usize| i < self.slot_count() && !#[trigger] self@.contains_key(i) implies f.contains(i) by {
            let p = self.slots@[i as int].spec_free_position();
            assert(f[p] == i);
        }
    }

    /// The last slot always holds a value: trailing free slots are dropped.
    pub proof fn law_last_slot_filled(&self)
        requires
            self.wf(),
        ensures
            self.slot_count() > 0 ==> self@.contains_key((self.slot_count() - 1) as usize),
    {
    }

    /// A slot vector holds finitely many values, fewer than `isize::MAX`.
    pub proof fn lemma_size_bound(&self)
        requires
            self.wf(),
        ensures
            self@.dom().finite(),
            self@.len() <= isize::MAX,
    {
        self.lemma_len_is_map_len();
    }
}

} // verus!
