use vstd::prelude::*;

verus! {

/// A slot of a [`crate::MultiStash`]: either vacant, linking to the next free slot,
/// or occupied by an element with a positive number of remaining items.
#[derive(Debug, Copy, Clone, PartialEq, Eq, PartialOrd, Ord, Hash)]
pub enum Entry<T> {
    Vacant(VacantEntry),
    Occupied(OccupiedEntry<T>),
}

impl<T> From<VacantEntry> for Entry<T> {
    fn from(entry: VacantEntry) -> (r: Self)
        ensures
            r == Entry::<T>::Vacant(entry),
    {
        Entry::Vacant(entry)
    }
}

impl<T> vstd::std_specs::convert::FromSpecImpl<VacantEntry> for Entry<T> {
    open spec fn obeys_from_spec() -> bool {
        true
    }

    open spec fn from_spec(entry: VacantEntry) -> Self {
        Entry::Vacant(entry)
    }
}

impl<T> From<OccupiedEntry<T>> for Entry<T> {
    fn from(entry: OccupiedEntry<T>) -> (r: Self)
        ensures
            r == Entry::Occupied(entry),
    {
        Entry::Occupied(entry)
    }
}

impl<T> vstd::std_specs::convert::FromSpecImpl<OccupiedEntry<T>> for Entry<T> {
    open spec fn obeys_from_spec() -> bool {
        true
    }

    open spec fn from_spec(entry: OccupiedEntry<T>) -> Self {
        Entry::Occupied(entry)
    }
}

/// A vacant slot; `next_free` is the slot to hand out after this one.
#[derive(Debug, Copy, Clone, PartialEq, Eq, PartialOrd, Ord, Hash)]
pub struct VacantEntry {
    pub next_free: usize,
}

impl VacantEntry {
    pub fn new(next_free: usize) -> (r: Self)
        ensures
            r.next_free == next_free,
    {
        Self { next_free }
    }
}

/// An occupied slot holding `item` and the number of items still available.
#[derive(Debug, Copy, Clone, PartialEq, Eq, PartialOrd, Ord, Hash)]
pub struct OccupiedEntry<T> {
    pub remaining: usize,
    pub item: T,
}

impl<T> OccupiedEntry<T> {
    pub fn new(item: T, amount: usize) -> (r: Self)
        requires
            amount > 0,
        ensures
            r.remaining == amount,
            r.item == item,
    {
        Self { remaining: amount, item }
    }
}

} // verus!
