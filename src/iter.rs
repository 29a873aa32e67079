use crate::entry::{Entry, VacantEntry};
use crate::model::{
    count_occupied, lemma_live_count, lemma_live_range_front, live, live_range, slots_of, Slot,
};
use crate::Key;
use vstd::prelude::*;

verus! {

/// Slots that agree on `lo..hi` have the same live slots there.
proof fn lemma_live_range_frame<T>(a: Seq<Slot<T>>, b: Seq<Slot<T>>, lo: int, hi: int)
    requires
        forall|i: int| lo <= i < hi ==> a[i] == b[i],
    ensures
        live_range(a, lo, hi) == live_range(b, lo, hi),
    decreases hi - lo,
{
    if hi > lo {
        lemma_live_range_frame(a, b, lo, hi - 1);
    }
}

/// The whole table holds as many live slots as occupied slots.
proof fn lemma_live_len<T>(slots: Seq<Slot<T>>)
    ensures
        live(slots).len() == count_occupied(slots),
{
    lemma_live_count(slots, slots.len() as int);
    assert(slots.take(slots.len() as int) =~= slots);
}

/// Iterator over the elements of a [`crate::MultiStash`] by shared reference.
///
/// Created by [`crate::MultiStash::iter`].
#[derive(Debug)]
pub struct Iter<'a, T> {
    /// The number of occupied entries not yet yielded.
    remaining: usize,
    entries: &'a [Entry<T>],
    /// The entries left to visit are those in `front..back`.
    front: usize,
    back: usize,
}

impl<'a, T> View for Iter<'a, T> {
    type V = Seq<(usize, nat, T)>;

    /// What is left to yield, in ascending order of key.
    closed spec fn view(&self) -> Seq<(usize, nat, T)> {
        live_range(slots_of(self.entries@), self.front as int, self.back as int)
    }
}

impl<'a, T> Iter<'a, T> {
    pub closed spec fn wf(&self) -> bool {
        &&& self.front <= self.back <= self.entries@.len()
        &&& self.remaining == self@.len()
    }

    /// Creates an iterator over `entries`, of which `occupied` are occupied.
    pub(crate) fn new(entries: &'a [Entry<T>], occupied: usize) -> (r: Self)
        requires
            occupied == count_occupied(slots_of(entries@)),
        ensures
            r.wf(),
            r@ == live(slots_of(entries@)),
    {
        proof {
            lemma_live_len(slots_of(entries@));
        }
        Self { remaining: occupied, entries, front: 0, back: entries.len() }
    }

    /// Yields the occupied entry with the lowest key not yet yielded.
    pub fn next(&mut self) -> (r: Option<(Key, usize, &'a T)>)
        requires
            old(self).wf(),
        ensures
            final(self).wf(),
            old(self)@.len() == 0 ==> r is None && final(self)@ == old(self)@,
            old(self)@.len() > 0 ==> {
                &&& r matches Some((k, n, x)) && old(self)@[0] == (k.0, n as nat, *x)
                &&& final(self)@ == old(self)@.drop_first()
            },
    {
        let entries: &'a [Entry<T>] = self.entries;
        while self.front < self.back
            invariant
                self.front <= self.back <= entries@.len(),
                self.entries == entries,
                self.remaining == old(self).remaining,
                self@ == old(self)@,
                old(self).wf(),
            decreases self.back - self.front,
        {
            let index = self.front;
            proof {
                lemma_live_range_front(slots_of(entries@), index as int, self.back as int);
            }
            self.front = self.front + 1;
            match &entries[index] {
                Entry::Occupied(entry) => {
                    self.remaining = self.remaining - 1;
                    return Some((Key(index), entry.remaining, &entry.item));
                },
                Entry::Vacant(_) => {},
            }
        }
        None
    }

    /// Yields the occupied entry with the highest key not yet yielded.
    pub fn next_back(&mut self) -> (r: Option<(Key, usize, &'a T)>)
        requires
            old(self).wf(),
        ensures
            final(self).wf(),
            old(self)@.len() == 0 ==> r is None && final(self)@ == old(self)@,
            old(self)@.len() > 0 ==> {
                &&& r matches Some((k, n, x)) && old(self)@.last() == (k.0, n as nat, *x)
                &&& final(self)@ == old(self)@.drop_last()
            },
    {
        let entries: &'a [Entry<T>] = self.entries;
        while self.front < self.back
            invariant
                self.front <= self.back <= entries@.len(),
                self.entries == entries,
                self.remaining == old(self).remaining,
                self@ == old(self)@,
                old(self).wf(),
            decreases self.back - self.front,
        {
            self.back = self.back - 1;
            let index = self.back;
            match &entries[index] {
                Entry::Occupied(entry) => {
                    self.remaining = self.remaining - 1;
                    return Some((Key(index), entry.remaining, &entry.item));
                },
                Entry::Vacant(_) => {},
            }
        }
        None
    }

    /// The number of elements left to yield.
    pub fn len(&self) -> (r: usize)
        requires
            self.wf(),
        ensures
            r == self@.len(),
    {
        self.remaining
    }
}

/// Iterator that moves the elements out of a [`crate::MultiStash`].
///
/// Created by [`crate::MultiStash::into_iter`].
#[derive(Debug)]
pub struct IntoIter<T> {
    /// The number of occupied entries not yet yielded.
    remaining: usize,
    entries: Vec<Entry<T>>,
    /// The entries left to visit are those in `front..back`.
    front: usize,
    back: usize,
}

impl<T> View for IntoIter<T> {
    type V = Seq<(usize, nat, T)>;

    /// What is left to yield, in ascending order of key.
    closed spec fn view(&self) -> Seq<(usize, nat, T)> {
        live_range(slots_of(self.entries@), self.front as int, self.back as int)
    }
}

impl<T> IntoIter<T> {
    pub closed spec fn wf(&self) -> bool {
        &&& self.front <= self.back <= self.entries@.len()
        &&& self.remaining == self@.len()
    }

    /// Creates an iterator that consumes `entries`, of which `occupied` are occupied.
    pub(crate) fn new(entries: Vec<Entry<T>>, occupied: usize) -> (r: Self)
        requires
            occupied == count_occupied(slots_of(entries@)),
        ensures
            r.wf(),
            r@ == live(slots_of(entries@)),
    {
        proof {
            lemma_live_len(slots_of(entries@));
        }
        let back = entries.len();
        Self { remaining: occupied, entries, front: 0, back }
    }

    /// Moves the entry at `index` out, leaving a vacant one in its place.
    fn take_entry(&mut self, index: usize) -> (r: Entry<T>)
        requires
            index < old(self).entries@.len(),
            index < old(self).front || old(self).back <= index,
            old(self).front <= old(self).back <= old(self).entries@.len(),
        ensures
            r == old(self).entries@[index as int],
            final(self)@ == old(self)@,
            final(self).remaining == old(self).remaining,
            final(self).front == old(self).front,
            final(self).back == old(self).back,
            final(self).entries@.len() == old(self).entries@.len(),
    {
        let mut slot = Entry::Vacant(VacantEntry::new(0));
        std::mem::swap(&mut self.entries[index], &mut slot);
        proof {
            assert forall|i: int| self.front <= i < self.back implies slots_of(self.entries@)[i]
                == slots_of(old(self).entries@)[i] by {}
            lemma_live_range_frame(
                slots_of(self.entries@),
                slots_of(old(self).entries@),
                self.front as int,
                self.back as int,
            );
        }
        slot
    }

    /// Yields the occupied entry with the lowest key not yet yielded.
    pub fn next(&mut self) -> (r: Option<(Key, usize, T)>)
        requires
            old(self).wf(),
        ensures
            final(self).wf(),
            old(self)@.len() == 0 ==> r is None && final(self)@ == old(self)@,
            old(self)@.len() > 0 ==> {
                &&& r matches Some((k, n, x)) && old(self)@[0] == (k.0, n as nat, x)
                &&& final(self)@ == old(self)@.drop_first()
            },
    {
        while self.front < self.back
            invariant
                self.front <= self.back <= self.entries@.len(),
                self.remaining == old(self).remaining,
                self@ == old(self)@,
                self.wf(),
            decreases self.back - self.front,
        {
            let index = self.front;
            proof {
                lemma_live_range_front(slots_of(self.entries@), index as int, self.back as int);
            }
            let occupied = match &self.entries[index] {
                Entry::Occupied(_) => true,
                Entry::Vacant(_) => false,
            };
            self.front = self.front + 1;
            if occupied {
                match self.take_entry(index) {
                    Entry::Occupied(entry) => {
                        self.remaining = self.remaining - 1;
                        return Some((Key(index), entry.remaining, entry.item));
                    },
                    Entry::Vacant(_) => {},
                }
            }
        }
        None
    }

    /// Yields the occupied entry with the highest key not yet yielded.
    pub fn next_back(&mut self) -> (r: Option<(Key, usize, T)>)
        requires
            old(self).wf(),
        ensures
            final(self).wf(),
            old(self)@.len() == 0 ==> r is None && final(self)@ == old(self)@,
            old(self)@.len() > 0 ==> {
                &&& r matches Some((k, n, x)) && old(self)@.last() == (k.0, n as nat, x)
                &&& final(self)@ == old(self)@.drop_last()
            },
    {
        while self.front < self.back
            invariant
                self.front <= self.back <= self.entries@.len(),
                self.remaining == old(self).remaining,
                self@ == old(self)@,
                self.wf(),
            decreases self.back - self.front,
        {
            self.back = self.back - 1;
            let index = self.back;
            let occupied = match &self.entries[index] {
                Entry::Occupied(_) => true,
                Entry::Vacant(_) => false,
            };
            if occupied {
                match self.take_entry(index) {
                    Entry::Occupied(entry) => {
                        self.remaining = self.remaining - 1;
                        return Some((Key(index), entry.remaining, entry.item));
                    },
                    Entry::Vacant(_) => {},
                }
            }
        }
        None
    }

    /// The number of elements left to yield.
    pub fn len(&self) -> (r: usize)
        requires
            self.wf(),
        ensures
            r == self@.len(),
    {
        self.remaining
    }
}

} // verus!
