mod entry;
mod free_list;
mod iter;
mod iter_mut;
mod laws;
mod model;

pub use crate::entry::{Entry, OccupiedEntry, VacantEntry};
pub use crate::iter::{IntoIter, Iter};
pub use crate::iter_mut::{count_some, first_some, last_some, reference_at, IterMut};
pub use crate::laws::{
    lemma_iteration_matches_lookup, lemma_put_then_get, lemma_reuse_last_vacated_first,
};
pub use crate::model::{
    count_occupied, freed, item_of, items_of, live, live_range, put_all, put_free, put_key,
    put_slots, removed, slot_at, slot_of, slots_of, sum_amounts, total_items, Slot,
};

use crate::free_list::{
    free_chain, lemma_chain_at, lemma_chain_same_vacancies, lemma_chain_claim, lemma_chain_keep, lemma_chain_push, lemma_chain_vacate,
    lemma_free_chain_unique,
};
use crate::model::{
    lemma_all_occupied, lemma_sum_amounts_prefix, lemma_totals_same_counts, lemma_totals_bounds, lemma_totals_push,
    lemma_totals_update, lemma_view_push, lemma_view_update,
};

use vstd::pervasive::{cloned, unreached};
use vstd::prelude::*;

verus! {

/// A handle to an element stored in a [`MultiStash`]: the index of its slot.
#[derive(Debug, Copy, Clone, PartialEq, Eq, PartialOrd, Ord, Hash)]
pub struct Key(pub usize);

impl From<usize> for Key {
    fn from(index: usize) -> (r: Self)
        ensures
            r.0 == index,
    {
        Key(index)
    }
}

impl vstd::std_specs::convert::FromSpecImpl<usize> for Key {
    open spec fn obeys_from_spec() -> bool {
        true
    }

    open spec fn from_spec(index: usize) -> Self {
        Key(index)
    }
}

impl From<Key> for usize {
    fn from(key: Key) -> (r: Self)
        ensures
            r == key.0,
    {
        key.0
    }
}

impl vstd::std_specs::convert::FromSpecImpl<Key> for usize {
    open spec fn obeys_from_spec() -> bool {
        true
    }

    open spec fn from_spec(key: Key) -> Self {
        key.0
    }
}

/// A vector-like collection that reuses vacated slots for new elements and
/// keeps, for each element, a count of the items it stands for.
#[derive(Debug, Clone, PartialEq, Eq, PartialOrd, Ord, Hash)]
pub struct MultiStash<T> {
    /// The next slot to hand out: the head of the free list, or the length of
    /// `entries` when no slot is vacant.
    free: usize,
    /// The sum of the remaining counts of all occupied entries.
    len_items: usize,
    /// The number of occupied entries.
    len_occupied: usize,
    entries: Vec<Entry<T>>,
}

impl<T> View for MultiStash<T> {
    type V = Seq<Slot<T>>;

    /// The slots in index order.
    closed spec fn view(&self) -> Seq<Slot<T>> {
        slots_of(self.entries@)
    }
}

impl<T> MultiStash<T> {
    /// The vacant slots in the order in which `put` hands them out.
    pub closed spec fn free_list(&self) -> Seq<usize> {
        choose|fl: Seq<usize>| free_chain(self.entries@, self.free, fl)
    }

    /// The invariant of the collection.
    pub closed spec fn wf(&self) -> bool {
        &&& exists|fl: Seq<usize>| free_chain(self.entries@, self.free, fl)
        &&& forall|i: int|
            0 <= i < self.entries@.len() && (#[trigger] self.entries@[i]) is Occupied
                ==> self.entries@[i]->Occupied_0.remaining > 0
        &&& self.len_items == total_items(self@)
        &&& self.len_occupied == count_occupied(self@)
        &&& self.len_occupied == 0 ==> self.entries@.len() == 0
    }

    proof fn lemma_wf_facts(&self)
        requires
            self.wf(),
        ensures
            free_chain(self.entries@, self.free, self.free_list()),
            self@.len() == self.entries@.len(),
            forall|i: int| 0 <= i < self@.len() ==> #[trigger] self@[i] == slot_of(self.entries@[i]),
            count_occupied(self@) <= total_items(self@),
            count_occupied(self@) <= self@.len(),
            self.free_list().len() == 0 ==> count_occupied(self@) == self@.len(),
    {
        let fl = self.free_list();
        assert(free_chain(self.entries@, self.free, fl));
        lemma_totals_bounds(self@);
        if fl.len() == 0 {
            assert forall|i: int| 0 <= i < self@.len() implies self@[i] is Some by {
                if self@[i] is None {
                    assert(fl.contains(i as usize));
                }
            }
            lemma_all_occupied(self@);
        }
    }

    proof fn lemma_free_list_is(&self, fl: Seq<usize>)
        requires
            free_chain(self.entries@, self.free, fl),
        ensures
            self.free_list() == fl,
    {
        let c = self.free_list();
        assert(free_chain(self.entries@, self.free, c));
        lemma_free_chain_unique(self.entries@, self.free, c, fl);
    }

    /// Every occupied slot holds at least one item, so there are at least as
    /// many items as occupied slots, and no more occupied slots than slots.
    pub proof fn lemma_items_cover_occupied(&self)
        requires
            self.wf(),
        ensures
            forall|i: int| 0 <= i < self@.len() && (#[trigger] self@[i]) is Some ==> items_of(self@[i]) >= 1,
            count_occupied(self@) <= total_items(self@),
            count_occupied(self@) <= self@.len(),
            self@.len() <= usize::MAX,
            self.free_list().len() == 0 ==> count_occupied(self@) == self@.len(),
    {
        self.lemma_wf_facts();
    }

    /// A collection without elements is fully reset: no slots, no items, and
    /// an empty free list, so that the next `put` hands out key 0.
    pub proof fn lemma_drained_is_reset(&self)
        requires
            self.wf(),
            count_occupied(self@) == 0,
        ensures
            self@.len() == 0,
            total_items(self@) == 0,
            self.free_list().len() == 0,
            put_key(self@, self.free_list()) == 0,
    {
        self.lemma_wf_facts();
        let fl = self.free_list();
        if fl.len() > 0 {
            lemma_chain_at(self.entries@, self.free, fl, 0);
        }
        assert(self@ =~= Seq::<Slot<T>>::empty());
    }

    /// The free list holds exactly the vacant slots, each once.
    pub proof fn lemma_free_list_vacant(&self)
        requires
            self.wf(),
        ensures
            self.free_list().no_duplicates(),
            forall|k: int|
                0 <= k < self.free_list().len() ==> (#[trigger] self.free_list()[k]) < self@.len()
                    && self@[self.free_list()[k] as int] is None,
            forall|i: int| 0 <= i < self@.len() && (#[trigger] self@[i]) is None ==> self.free_list().contains(i as usize),
    {
        self.lemma_wf_facts();
        let fl = self.free_list();
        assert forall|k: int| 0 <= k < fl.len() implies (#[trigger] fl[k]) < self@.len() && self@[fl[k] as int] is None by {
            lemma_chain_at(self.entries@, self.free, fl, k);
        }
        assert forall|i: int| 0 <= i < self@.len() && (#[trigger] self@[i]) is None implies fl.contains(i as usize) by {
            assert(self.entries@[i] is Vacant);
        }
    }

    /// Constructs a new, empty `MultiStash`.
    pub fn new() -> (r: Self)
        ensures
            r.wf(),
            r@ == Seq::<Slot<T>>::empty(),
            r.free_list() == Seq::<usize>::empty(),
    {
        let r = Self { free: 0, len_items: 0, len_occupied: 0, entries: Vec::new() };
        proof {
            assert(free_chain(r.entries@, r.free, Seq::<usize>::empty()));
            assert(r@ =~= Seq::<Slot<T>>::empty());
            r.lemma_free_list_is(Seq::<usize>::empty());
        }
        r
    }

    /// Puts `amount` items of `item` into the collection and returns the key of
    /// the slot that now holds them: the head of the free list, or a new slot
    /// at the end when no slot is vacant.
    pub fn put(&mut self, amount: usize, item: T) -> (key: Key)
        requires
            old(self).wf(),
            amount > 0,
            total_items(old(self)@) + amount <= usize::MAX,
        ensures
            final(self).wf(),
            key.0 == put_key(old(self)@, old(self).free_list()),
            final(self)@ == put_slots(old(self)@, old(self).free_list(), amount as nat, item),
            final(self).free_list() == put_free(old(self).free_list()),
            total_items(final(self)@) == total_items(old(self)@) + amount,
            count_occupied(final(self)@) == count_occupied(old(self)@) + 1,
    {
        proof {
            self.lemma_wf_facts();
        }
        let ghost fl = self.free_list();
        proof {
            if fl.len() > 0 {
                lemma_chain_at(self.entries@, self.free, fl, 0);
            }
        }
        let ghost new_slot = Some((amount as nat, item));
        let key = Key(self.free);
        if self.free == self.len_entries() {
            let entry = Entry::Occupied(OccupiedEntry::new(item, amount));
            proof {
                lemma_chain_push(self.entries@, fl, entry);
                lemma_view_push(self.entries@, entry);
                lemma_totals_push(self@, new_slot);
            }
            self.entries.push(entry);
            self.free = self.entries.len();
        } else {
            let mut slot = Entry::Occupied(OccupiedEntry::new(item, amount));
            let index = self.free;
            proof {
                lemma_chain_claim(self.entries@, fl, slot);
                lemma_view_update(self.entries@, index as int, slot);
                lemma_totals_update(self@, index as int, new_slot);
            }
            std::mem::swap(&mut self.entries[index], &mut slot);
            match slot {
                Entry::Vacant(vacant) => {
                    self.free = vacant.next_free;
                },
                Entry::Occupied(_) => {},
            }
        }
        self.len_items = self.len_items + amount;
        self.len_occupied = self.len_occupied + 1;
        proof {
            let rest = if fl.len() == 0 { fl } else { fl.drop_first() };
            self.lemma_free_list_is(rest);
        }
        key
    }

    /// Constructs a new, empty `MultiStash` with room for at least `capacity`
    /// entries.
    pub fn with_capacity(capacity: usize) -> (r: Self)
        ensures
            r.wf(),
            r@ == Seq::<Slot<T>>::empty(),
            r.free_list() == Seq::<usize>::empty(),
    {
        let r = Self { free: 0, len_items: 0, len_occupied: 0, entries: Vec::with_capacity(capacity) };
        proof {
            assert(free_chain(r.entries@, r.free, Seq::<usize>::empty()));
            assert(r@ =~= Seq::<Slot<T>>::empty());
            r.lemma_free_list_is(Seq::<usize>::empty());
        }
        r
    }

    /// Returns the number of entries the collection can hold without reallocating.
    pub fn capacity(&self) -> (r: usize)
        requires
            self.wf(),
        ensures
            r >= self@.len(),
    {
        proof {
            self.lemma_wf_facts();
        }
        vec_capacity(&self.entries)
    }

    /// Reserves capacity for at least `additional` more entries.
    pub fn reserve(&mut self, additional: usize)
        requires
            old(self).wf(),
        ensures
            final(self).wf(),
            final(self)@ == old(self)@,
            final(self).free_list() == old(self).free_list(),
    {
        self.entries.reserve(additional);
        proof {
            self.lemma_free_list_is(old(self).free_list());
        }
    }

    /// Reserves the minimum capacity for at least `additional` more entries.
    pub fn reserve_exact(&mut self, additional: usize)
        requires
            old(self).wf(),
        ensures
            final(self).wf(),
            final(self)@ == old(self)@,
            final(self).free_list() == old(self).free_list(),
    {
        vec_reserve_exact(&mut self.entries, additional);
        proof {
            self.lemma_free_list_is(old(self).free_list());
        }
    }

    /// Returns the number of vacant or occupied entries.
    fn len_entries(&self) -> (r: usize)
        requires
            self.wf(),
        ensures
            r == self@.len(),
    {
        proof {
            self.lemma_wf_facts();
        }
        self.entries.len()
    }

    /// Returns the number of items: the sum of the remaining counts.
    pub fn len_items(&self) -> (r: usize)
        requires
            self.wf(),
        ensures
            r == total_items(self@),
    {
        self.len_items
    }

    /// Returns the number of occupied entries.
    fn len_occupied(&self) -> (r: usize)
        requires
            self.wf(),
        ensures
            r == count_occupied(self@),
    {
        self.len_occupied
    }

    /// Returns the number of elements, that is of occupied entries.
    pub fn len(&self) -> (r: usize)
        requires
            self.wf(),
        ensures
            r == count_occupied(self@),
    {
        self.len_occupied()
    }

    /// Returns `true` if the collection holds no element.
    pub fn is_empty(&self) -> (r: bool)
        requires
            self.wf(),
        ensures
            r == (count_occupied(self@) == 0),
    {
        self.len_occupied() == 0
    }

    /// Returns the remaining count of the element at `key` and a reference to it.
    pub fn get(&self, key: Key) -> (r: Option<(usize, &T)>)
        requires
            self.wf(),
        ensures
            r is None <==> slot_at(self@, key.0) is None,
            r matches Some((n, x)) ==> slot_at(self@, key.0) == Some((n as nat, *x)),
    {
        proof {
            self.lemma_wf_facts();
        }
        if key.0 >= self.entries.len() {
            return None;
        }
        match &self.entries[key.0] {
            Entry::Occupied(entry) => Some((entry.remaining, &entry.item)),
            Entry::Vacant(_) => None,
        }
    }

    /// Returns the remaining count of the element at `key` and a mutable
    /// reference to it; what is written through it becomes the element.
    pub fn get_mut(&mut self, key: Key) -> (r: Option<(usize, &mut T)>)
        requires
            old(self).wf(),
        ensures
            r is None <==> slot_at(old(self)@, key.0) is None,
            r is None ==> *final(self) == *old(self),
            r matches Some((n, x)) ==> {
                &&& slot_at(old(self)@, key.0) == Some((n as nat, *x))
                &&& final(self).wf()
                &&& final(self)@ == old(self)@.update(key.0 as int, Some((n as nat, *final(x))))
                &&& final(self).free_list() == old(self).free_list()
            },
    {
        proof {
            self.lemma_wf_facts();
        }
        if key.0 >= self.entries.len() {
            return None;
        }
        match &self.entries[key.0] {
            Entry::Vacant(_) => {
                return None;
            },
            Entry::Occupied(_) => {},
        }
        proof {
            let k = key.0 as int;
            let rem = self.entries@[k]->Occupied_0.remaining;
            let fl = self.free_list();
            assert forall|m: MultiStash<T>|
                m.free == self.free && m.len_items == self.len_items && m.len_occupied == self.len_occupied
                    && m.entries@ == self.entries@.update(k, Entry::Occupied(OccupiedEntry { remaining: rem, item: (#[trigger] m.entries@[k])->Occupied_0.item }))
                implies m.wf() && m@ == self@.update(k, Some((rem as nat, m.entries@[k]->Occupied_0.item)))
                    && m.free_list() == fl by {
                let e = m.entries@[k];
                lemma_chain_keep(self.entries@, self.free, fl, k, e);
                lemma_view_update(self.entries@, k, e);
                lemma_totals_update(self@, k, slot_of(e));
                lemma_totals_update(self@, k, None);
                m.lemma_free_list_is(fl);
            }
        }
        match &mut self.entries[key.0] {
            Entry::Occupied(entry) => Some((entry.remaining, &mut entry.item)),
            Entry::Vacant(_) => None,
        }
    }

    /// Returns an iterator over the elements, their keys and remaining counts,
    /// in ascending order of key.
    pub fn iter(&self) -> (r: Iter<'_, T>)
        requires
            self.wf(),
        ensures
            r.wf(),
            r@ == live(self@),
    {
        Iter::new(self.entries.as_slice(), self.len_occupied)
    }

    /// Returns an iterator over mutable references to the elements, with
    /// their keys and remaining counts. It has one position per slot, `None`
    /// where the slot is vacant. Only the elements can change through it: once
    /// it is released, every slot keeps its occupancy and count, and the
    /// element at each key is what was finally written through its reference.
    pub fn iter_mut(&mut self) -> (r: IterMut<'_, T>)
        requires
            old(self).wf(),
        ensures
            r.wf(),
            r@.len() == old(self)@.len(),
            count_some(r@) == count_occupied(old(self)@),
            forall|i: int| 0 <= i < r@.len() ==> (#[trigger] r@[i] is Some) == (old(self)@[i] is Some),
            forall|i: int|
                0 <= i < r@.len() && (#[trigger] r@[i]) is Some ==> {
                    let (k, n, x) = r@[i]->Some_0;
                    &&& k.0 == i
                    &&& old(self)@[i] == Some((n as nat, *x))
                    &&& final(self)@[i] == Some((n as nat, *final(x)))
                },
            final(self).wf(),
            final(self).free_list() == old(self).free_list(),
            final(self)@.len() == old(self)@.len(),
            forall|i: int| 0 <= i < old(self)@.len() && old(self)@[i] is None ==> #[trigger] final(self)@[i] is None,
            total_items(final(self)@) == total_items(old(self)@),
            count_occupied(final(self)@) == count_occupied(old(self)@),
    {
        proof {
            self.lemma_wf_facts();
        }
        let ghost before = self.entries@;
        let ghost fl = self.free_list();
        let entries = self.entries.as_mut_slice();
        let ghost after = final(entries)@;
        let r = IterMut::new(entries, self.len_occupied);
        proof {
            assert forall|i: int| 0 <= i < before.len() && before[i] is Occupied implies (#[trigger] after[i]) is Occupied
                && after[i]->Occupied_0.remaining == before[i]->Occupied_0.remaining by {
                assert(r@[i] is Some);
            }
            lemma_chain_same_vacancies(before, after, self.free, fl);
            assert forall|i: int| 0 <= i < before.len() implies (#[trigger] slots_of(before)[i] is Some)
                == (slots_of(after)[i] is Some) && items_of(slots_of(before)[i]) == items_of(slots_of(after)[i]) by {
                if before[i] is Occupied {
                    assert(r@[i] is Some);
                }
            }
            lemma_totals_same_counts(slots_of(before), slots_of(after));
            assert forall|m: MultiStash<T>|
                m.free == self.free && m.len_items == self.len_items && m.len_occupied == self.len_occupied
                    && #[trigger] m.entries@ == after implies m.wf() && m.free_list() == fl by {
                m.lemma_free_list_is(fl);
            }
        }
        r
    }

    /// Turns the collection into an iterator that yields its elements, their
    /// keys and remaining counts, in ascending order of key.
    pub fn into_iter(self) -> (r: IntoIter<T>)
        requires
            self.wf(),
        ensures
            r.wf(),
            r@ == live(self@),
    {
        IntoIter::new(self.entries, self.len_occupied)
    }

    /// Returns a reference to the element at `key`, which must be occupied.
    pub fn index(&self, key: Key) -> (r: &T)
        requires
            self.wf(),
            slot_at(self@, key.0) is Some,
        ensures
            slot_at(self@, key.0) == Some((items_of(slot_at(self@, key.0)), *r)),
    {
        proof {
            self.lemma_wf_facts();
        }
        match &self.entries[key.0] {
            Entry::Occupied(entry) => &entry.item,
            Entry::Vacant(_) => unreached(),
        }
    }

    /// Returns a mutable reference to the element at `key`, which must be
    /// occupied; what is written through it becomes the element.
    pub fn index_mut(&mut self, key: Key) -> (r: &mut T)
        requires
            old(self).wf(),
            slot_at(old(self)@, key.0) is Some,
        ensures
            slot_at(old(self)@, key.0) == Some((items_of(slot_at(old(self)@, key.0)), *r)),
            final(self).wf(),
            final(self)@ == old(self)@.update(
                key.0 as int,
                Some((items_of(slot_at(old(self)@, key.0)), *final(r))),
            ),
            final(self).free_list() == old(self).free_list(),
    {
        match self.get_mut(key) {
            Some((_, item)) => item,
            None => unreached(),
        }
    }

    /// Clears the collection, keeping its allocated capacity.
    pub fn clear(&mut self)
        ensures
            final(self).wf(),
            final(self)@ == Seq::<Slot<T>>::empty(),
            final(self).free_list() == Seq::<usize>::empty(),
    {
        self.free = 0;
        self.len_items = 0;
        self.len_occupied = 0;
        self.entries.clear();
        proof {
            assert(free_chain(self.entries@, self.free, Seq::<usize>::empty()));
            assert(self@ =~= Seq::<Slot<T>>::empty());
            self.lemma_free_list_is(Seq::<usize>::empty());
        }
    }

    /// Removes the element at `key` with all its remaining items and returns
    /// them. Its slot goes to the front of the free list; when no element is
    /// left, the collection is cleared.
    pub fn take_all(&mut self, key: Key) -> (r: Option<(usize, T)>)
        requires
            old(self).wf(),
        ensures
            final(self).wf(),
            slot_at(old(self)@, key.0) is None ==> {
                &&& r is None
                &&& final(self)@ == old(self)@
                &&& final(self).free_list() == old(self).free_list()
            },
            slot_at(old(self)@, key.0) matches Some((n, x)) ==> {
                &&& r == Some((n as usize, x))
                &&& final(self)@ == removed(old(self)@, key.0)
                &&& final(self).free_list() == freed(old(self)@, old(self).free_list(), key.0)
                &&& total_items(final(self)@) == total_items(old(self)@) - n
                &&& count_occupied(final(self)@) == count_occupied(old(self)@) - 1
            },
    {
        proof {
            self.lemma_wf_facts();
        }
        let index = key.0;
        if index >= self.entries.len() {
            return None;
        }
        match &self.entries[index] {
            Entry::Vacant(_) => {
                return None;
            },
            Entry::Occupied(_) => {},
        }
        Some(self.vacate(index))
    }

    /// Removes the occupied entry at `index`, puts its slot in front of the
    /// free list, clears the collection when no element is left, and returns
    /// the entry's count and element.
    fn vacate(&mut self, index: usize) -> (r: (usize, T))
        requires
            old(self).wf(),
            index < old(self)@.len(),
            old(self)@[index as int] is Some,
        ensures
            final(self).wf(),
            old(self)@[index as int] == Some((r.0 as nat, r.1)),
            final(self)@ == removed(old(self)@, index),
            final(self).free_list() == freed(old(self)@, old(self).free_list(), index),
            total_items(final(self)@) == total_items(old(self)@) - r.0,
            count_occupied(final(self)@) == count_occupied(old(self)@) - 1,
    {
        proof {
            self.lemma_wf_facts();
        }
        let ghost fl = self.free_list();
        let mut slot = Entry::Vacant(VacantEntry::new(self.free));
        proof {
            lemma_chain_vacate(self.entries@, self.free, fl, index as int);
            lemma_view_update(self.entries@, index as int, slot);
            lemma_totals_update(self@, index as int, None);
        }
        std::mem::swap(&mut self.entries[index], &mut slot);
        match slot {
            Entry::Occupied(occupied) => {
                self.free = index;
                self.len_items = self.len_items - occupied.remaining;
                self.len_occupied = self.len_occupied - 1;
                proof {
                    self.lemma_free_list_is(seq![index] + fl);
                }
                self.clear_if_empty();
                (occupied.remaining, occupied.item)
            },
            Entry::Vacant(_) => unreached(),
        }
    }

    /// Finishes a removal: clears the collection once no entry is occupied.
    fn clear_if_empty(&mut self)
        requires
            exists|fl: Seq<usize>| free_chain(old(self).entries@, old(self).free, fl),
            forall|i: int|
                0 <= i < old(self).entries@.len() && (#[trigger] old(self).entries@[i]) is Occupied
                    ==> old(self).entries@[i]->Occupied_0.remaining > 0,
            old(self).len_items == total_items(old(self)@),
            old(self).len_occupied == count_occupied(old(self)@),
        ensures
            final(self).wf(),
            count_occupied(old(self)@) == 0 ==> {
                &&& final(self)@ == Seq::<Slot<T>>::empty()
                &&& final(self).free_list() == Seq::<usize>::empty()
            },
            count_occupied(old(self)@) > 0 ==> {
                &&& final(self)@ == old(self)@
                &&& final(self).free_list() == old(self).free_list()
            },
            total_items(final(self)@) == total_items(old(self)@),
            count_occupied(final(self)@) == count_occupied(old(self)@),
    {
        proof {
            lemma_totals_bounds(old(self)@);
        }
        if self.len_occupied == 0 {
            self.clear();
        }
    }

    /// Adds `amount` to the remaining count of the element at `key` and returns
    /// the count it had before.
    pub fn bump(&mut self, key: Key, amount: usize) -> (r: Option<usize>)
        requires
            old(self).wf(),
            slot_at(old(self)@, key.0) is Some ==> total_items(old(self)@) + amount <= usize::MAX,
        ensures
            final(self).wf(),
            final(self).free_list() == old(self).free_list(),
            slot_at(old(self)@, key.0) is None ==> r is None && final(self)@ == old(self)@,
            slot_at(old(self)@, key.0) matches Some((n, x)) ==> {
                &&& r == Some(n as usize)
                &&& final(self)@ == old(self)@.update(key.0 as int, Some(((n + amount) as nat, x)))
                &&& total_items(final(self)@) == total_items(old(self)@) + amount
                &&& count_occupied(final(self)@) == count_occupied(old(self)@)
            },
    {
        proof {
            self.lemma_wf_facts();
        }
        let index = key.0;
        if index >= self.entries.len() {
            return None;
        }
        match &self.entries[index] {
            Entry::Vacant(_) => {
                return None;
            },
            Entry::Occupied(_) => {},
        }
        let ghost fl = self.free_list();
        let ghost before = self.entries@[index as int];
        proof {
            lemma_totals_update(self@, index as int, None);
        }
        let previous = match &mut self.entries[index] {
            Entry::Vacant(_) => 0,
            Entry::Occupied(entry) => {
                let previous = entry.remaining;
                entry.remaining = previous + amount;
                previous
            },
        };
        self.len_items = self.len_items + amount;
        proof {
            let e = Entry::Occupied(
                OccupiedEntry { remaining: (previous + amount) as usize, item: before->Occupied_0.item },
            );
            assert(self.entries@ == old(self).entries@.update(index as int, e));
            lemma_totals_update(old(self)@, index as int, slot_of(e));
            lemma_chain_keep(old(self).entries@, old(self).free, fl, index as int, e);
            lemma_view_update(old(self).entries@, index as int, e);
            self.lemma_free_list_is(fl);
        }
        Some(previous)
    }
}

impl<T: Clone> MultiStash<T> {
    /// Takes a single item of the element at `key`: returns the element and the
    /// count left after this. The element stays, as a clone, while items remain;
    /// taking its last item removes it as `take_all` does.
    pub fn take_one(&mut self, key: Key) -> (r: Option<(usize, T)>)
        requires
            old(self).wf(),
        ensures
            final(self).wf(),
            slot_at(old(self)@, key.0) is None ==> {
                &&& r is None
                &&& final(self)@ == old(self)@
                &&& final(self).free_list() == old(self).free_list()
            },
            slot_at(old(self)@, key.0) matches Some((n, x)) ==> {
                &&& r == Some(((n - 1) as usize, x))
                &&& total_items(final(self)@) == total_items(old(self)@) - 1
                &&& count_occupied(final(self)@) == count_occupied(old(self)@) - if n == 1 {
                    1int
                } else {
                    0int
                }
                &&& n == 1 ==> final(self)@ == removed(old(self)@, key.0)
                    && final(self).free_list() == freed(old(self)@, old(self).free_list(), key.0)
                &&& n > 1 ==> final(self)@ == old(self)@.update(
                    key.0 as int,
                    Some(((n - 1) as nat, item_of(final(self)@[key.0 as int]))),
                ) && cloned(x, item_of(final(self)@[key.0 as int])) && final(self).free_list()
                    == old(self).free_list()
            },
    {
        proof {
            self.lemma_wf_facts();
        }
        let index = key.0;
        if index >= self.entries.len() {
            return None;
        }
        let remaining = match &self.entries[index] {
            Entry::Vacant(_) => {
                return None;
            },
            Entry::Occupied(entry) => entry.remaining,
        };
        let ghost fl = self.free_list();
        if remaining == 1 {
            let (_, item) = self.vacate(index);
            Some((0, item))
        } else {
            let copy = match &self.entries[index] {
                Entry::Occupied(entry) => entry.item.clone(),
                Entry::Vacant(_) => {
                    return None;
                },
            };
            let mut slot = Entry::Occupied(OccupiedEntry::new(copy, remaining - 1));
            proof {
                lemma_chain_keep(self.entries@, self.free, fl, index as int, slot);
                lemma_view_update(self.entries@, index as int, slot);
                lemma_totals_update(self@, index as int, slot_of(slot));
            }
            std::mem::swap(&mut self.entries[index], &mut slot);
            self.len_items = self.len_items - 1;
            proof {
                self.lemma_free_list_is(fl);
            }
            match slot {
                Entry::Occupied(occupied) => Some((remaining - 1, occupied.item)),
                Entry::Vacant(_) => None,
            }
        }
    }
}

impl<T> Default for MultiStash<T> {
    fn default() -> (r: Self)
        ensures
            r.wf(),
            r@ == Seq::<Slot<T>>::empty(),
            r.free_list() == Seq::<usize>::empty(),
    {
        Self::new()
    }
}

impl<T> MultiStash<T> {
    /// Puts each `(amount, item)` pair of `items`, in order.
    pub fn extend(&mut self, items: Vec<(usize, T)>)
        requires
            old(self).wf(),
            forall|i: int| 0 <= i < items@.len() ==> (#[trigger] items@[i]).0 > 0,
            total_items(old(self)@) + sum_amounts(items@) <= usize::MAX,
        ensures
            final(self).wf(),
            (final(self)@, final(self).free_list()) == put_all(old(self)@, old(self).free_list(), items@),
    {
        let ghost all = items@;
        let ghost n = all.len();
        let mut items = items;
        let mut reversed: Vec<(usize, T)> = Vec::new();
        while items.len() > 0
            invariant
                items@ == all.take(items@.len() as int),
                items@.len() + reversed@.len() == n,
                n == all.len(),
                forall|k: int| 0 <= k < reversed@.len() ==> #[trigger] reversed@[k] == all[n - 1 - k],
            decreases items@.len(),
        {
            match items.pop() {
                Some(pair) => {
                    reversed.push(pair);
                },
                None => {},
            }
            proof {
                assert(items@ =~= all.take(items@.len() as int));
            }
        }
        proof {
            assert(all.take(0) =~= Seq::<(usize, T)>::empty());
        }
        while reversed.len() > 0
            invariant
                self.wf(),
                reversed@.len() <= n,
                n == all.len(),
                forall|k: int| 0 <= k < reversed@.len() ==> #[trigger] reversed@[k] == all[n - 1 - k],
                (self@, self.free_list()) == put_all(old(self)@, old(self).free_list(), all.take(n - reversed@.len())),
                total_items(self@) == total_items(old(self)@) + sum_amounts(all.take(n - reversed@.len())),
                forall|i: int| 0 <= i < all.len() ==> (#[trigger] all[i]).0 > 0,
                total_items(old(self)@) + sum_amounts(all) <= usize::MAX,
            decreases reversed@.len(),
        {
            let ghost i = n - reversed@.len();
            let ghost before = reversed@;
            match reversed.pop() {
                Some(pair) => {
                    proof {
                        assert(pair == before[before.len() - 1]);
                        assert(pair == all[i]);
                        assert(all.take(i + 1).drop_last() =~= all.take(i));
                        lemma_sum_amounts_prefix(all, i + 1);
                    }
                    let (amount, item) = pair;
                    self.put(amount, item);
                },
                None => {},
            }
        }
        proof {
            assert(all.take(n as int) =~= all);
        }
    }

    /// Builds a collection by putting each `(amount, item)` pair of `items`, in order.
    pub fn from_iter(items: Vec<(usize, T)>) -> (r: Self)
        requires
            forall|i: int| 0 <= i < items@.len() ==> (#[trigger] items@[i]).0 > 0,
            sum_amounts(items@) <= usize::MAX,
        ensures
            r.wf(),
            (r@, r.free_list()) == put_all(Seq::<Slot<T>>::empty(), Seq::<usize>::empty(), items@),
    {
        let mut stash = Self::new();
        stash.extend(items);
        stash
    }
}

/// Relies on `Vec::capacity`, which is never below the length.
#[verifier::external_body]
fn vec_capacity<T>(v: &Vec<T>) -> (r: usize)
    ensures
        r >= v@.len(),
{
    v.capacity()
}

/// Relies on `Vec::reserve_exact`, which changes the capacity and not the contents.
#[verifier::external_body]
fn vec_reserve_exact<T>(v: &mut Vec<T>, additional: usize)
    ensures
        final(v)@ == old(v)@,
{
    v.reserve_exact(additional)
}

} // verus!
