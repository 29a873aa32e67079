use crate::entry::{Entry, OccupiedEntry};
use crate::model::{count_occupied, slots_of};
use crate::Key;
use vstd::prelude::*;

verus! {

/// The number of `Some` in `s`.
pub open spec fn count_some<X>(s: Seq<Option<X>>) -> nat
    decreases s.len(),
{
    if s.len() == 0 {
        0
    } else {
        count_some(s.drop_last()) + if s.last() is Some {
            1nat
        } else {
            0nat
        }
    }
}

/// The index of the first `Some` in `s`, or `s.len()` when there is none.
pub open spec fn first_some<X>(s: Seq<Option<X>>) -> int
    decreases s.len(),
{
    if s.len() == 0 {
        0
    } else if s[0] is Some {
        0
    } else {
        1 + first_some(s.drop_first())
    }
}

/// The index of the last `Some` in `s`, or -1 when there is none.
pub open spec fn last_some<X>(s: Seq<Option<X>>) -> int
    decreases s.len(),
{
    if s.len() == 0 {
        -1
    } else if s.last() is Some {
        s.len() - 1
    } else {
        last_some(s.drop_last())
    }
}

proof fn lemma_count_some_front<X>(s: Seq<Option<X>>)
    requires
        s.len() > 0,
    ensures
        count_some(s) == count_some(s.drop_first()) + if s[0] is Some {
            1nat
        } else {
            0nat
        },
    decreases s.len(),
{
    if s.len() > 1 {
        lemma_count_some_front(s.drop_last());
        assert(s.drop_last().drop_first() =~= s.drop_first().drop_last());
        assert(s.drop_first().last() == s.last());
        assert(s.drop_last()[0] == s[0]);
    } else {
        assert(s.drop_first() =~= Seq::<Option<X>>::empty());
        assert(s.drop_last() =~= Seq::<Option<X>>::empty());
    }
}

proof fn lemma_count_some_matches<X, T>(refs: Seq<Option<X>>, entries: Seq<Entry<T>>)
    requires
        refs.len() == entries.len(),
        forall|i: int| 0 <= i < refs.len() ==> (#[trigger] refs[i] is Some) == (entries[i] is Occupied),
    ensures
        count_some(refs) == count_occupied(slots_of(entries)),
    decreases refs.len(),
{
    if refs.len() > 0 {
        let e = entries.drop_last();
        assert(slots_of(entries).drop_last() =~= slots_of(e));
        assert forall|i: int| 0 <= i < refs.len() - 1 implies (#[trigger] refs.drop_last()[i] is Some)
            == (e[i] is Occupied) by {
            assert(refs[i] is Some == (entries[i] is Occupied));
        }
        lemma_count_some_matches(refs.drop_last(), e);
        assert(refs[refs.len() - 1] is Some == (entries[refs.len() - 1] is Occupied));
    }
}

/// The reference held at an occupied position.
pub open spec fn reference_at<'a, T>(p: Option<(Key, usize, &'a mut T)>) -> &'a mut T {
    match p {
        Some((_, _, x)) => x,
        None => arbitrary(),
    }
}

/// Iterator over the elements of a [`crate::MultiStash`] by mutable reference.
///
/// Created by [`crate::MultiStash::iter_mut`]. It holds one position per
/// slot: `None` for a vacant slot, else the key, the remaining count and a
/// mutable reference to the element.
#[derive(Debug)]
pub struct IterMut<'a, T> {
    /// The number of occupied positions not yet yielded.
    remaining: usize,
    slots: Vec<Option<(Key, usize, &'a mut T)>>,
    /// The positions left to visit are those in `front..back`.
    front: usize,
    back: usize,
}

impl<'a, T> View for IterMut<'a, T> {
    type V = Seq<Option<(Key, usize, &'a mut T)>>;

    /// The positions left to visit, in ascending order of key.
    closed spec fn view(&self) -> Seq<Option<(Key, usize, &'a mut T)>> {
        self.slots@.subrange(self.front as int, self.back as int)
    }
}

impl<'a, T> IterMut<'a, T> {
    pub closed spec fn wf(&self) -> bool {
        &&& self.front <= self.back <= self.slots@.len()
        &&& self.remaining == count_some(self@)
    }

    /// Splits `entries` into one position per entry. Vacant entries and the
    /// counts stay as they are; the element of each occupied entry becomes
    /// what is finally written through its reference.
    pub(crate) fn new(entries: &'a mut [Entry<T>], occupied: usize) -> (r: Self)
        requires
            occupied == count_occupied(slots_of(old(entries)@)),
        ensures
            r.wf(),
            count_some(r@) == occupied,
            r@.len() == old(entries)@.len(),
            final(entries)@.len() == old(entries)@.len(),
            forall|i: int|
                0 <= i < r@.len() ==> (#[trigger] r@[i] is Some) == (old(entries)@[i] is Occupied),
            forall|i: int|
                0 <= i < r@.len() && old(entries)@[i] is Vacant ==> #[trigger] final(entries)@[i]
                    == old(entries)@[i],
            forall|i: int|
                0 <= i < r@.len() && (#[trigger] r@[i]) is Some ==> {
                    let (k, n, x) = r@[i]->Some_0;
                    &&& k.0 == i
                    &&& old(entries)@[i] == Entry::Occupied(OccupiedEntry { remaining: n, item: *x })
                    &&& final(entries)@[i] == Entry::Occupied(
                        OccupiedEntry { remaining: n, item: *final(x) },
                    )
                },
    {
        let ghost all = old(entries)@;
        let ghost n = all.len();
        let ghost fin = final(entries)@;
        let len = entries.len();
        let mut rest: &'a mut [Entry<T>] = entries;
        let mut slots: Vec<Option<(Key, usize, &'a mut T)>> = Vec::new();
        let mut index: usize = 0;
        while index < len
            invariant
                n == len,
                n == all.len(),
                index + rest@.len() == n,
                rest@ == all.subrange(index as int, n as int),
                slots@.len() == index,
                fin.len() == index + final(rest)@.len(),
                forall|i: int|
                    index <= i < fin.len() ==> #[trigger] fin[i] == final(rest)@[i - index],
                forall|i: int|
                    0 <= i < index ==> (#[trigger] slots@[i] is Some) == (all[i] is Occupied),
                forall|i: int|
                    0 <= i < index && all[i] is Vacant ==> #[trigger] fin[i] == all[i],
                forall|i: int|
                    0 <= i < index && (#[trigger] slots@[i]) is Some ==> {
                        let (k, c, x) = slots@[i]->Some_0;
                        &&& k.0 == i
                        &&& all[i] == Entry::Occupied(OccupiedEntry { remaining: c, item: *x })
                        &&& fin[i] == Entry::Occupied(
                            OccupiedEntry { remaining: c, item: *final(x) },
                        )
                    },
            decreases n - index,
        {
            let ghost rest_fin = final(rest)@;
            let ghost rest_now = rest@;
            proof {
                assert(rest_now == all.subrange(index as int, n as int));
                assert(forall|i: int| index <= i < fin.len() ==> #[trigger] fin[i] == rest_fin[i - index]);
            }
            let mut whole: &'a mut [Entry<T>] = &mut [];
            std::mem::swap(&mut whole, &mut rest);
            let ghost whole_fin = final(whole)@;
            proof {
                assert(whole_fin == rest_fin);
            }
            let (head, tail) = whole.split_at_mut(1);
            proof {
                assert(whole_fin == final(head)@ + final(tail)@);
            }
            let ghost head_fin = final(head)@;
            let ghost tail_fin = final(tail)@;
            proof {
                assert(tail@ == rest_now.subrange(1, rest_now.len() as int));
                assert(head@ == rest_now.subrange(0, 1));
                assert(tail@ =~= all.subrange(index + 1, n as int));
                assert(all.subrange(index as int, n as int)[0] == all[index as int]);
            }
            rest = tail;
            match head.first_mut() {
                Some(entry) => match entry {
                    Entry::Occupied(occupied) => {
                        slots.push(Some((Key(index), occupied.remaining, &mut occupied.item)));
                    },
                    Entry::Vacant(_) => {
                        slots.push(None);
                    },
                },
                None => {},
            }
            proof {
                assert(head_fin.len() == 1);
                assert forall|i: int| index + 1 <= i < fin.len() implies #[trigger] fin[i] == tail_fin[i - (index + 1)] by {
                    assert(fin[i] == rest_fin[i - index]);
                    assert(rest_fin == whole_fin);
                    assert(whole_fin == head_fin + tail_fin);
                    assert((head_fin + tail_fin)[i - index] == tail_fin[i - index - 1]);
                }
            }
            index = index + 1;
        }
        proof {
            assert(final(rest)@.len() == 0);
            assert(slots@.subrange(0, n as int) =~= slots@);
            lemma_count_some_matches(slots@, all);
        }
        Self { remaining: occupied, slots, front: 0, back: len }
    }

    /// Moves the position at `index`, outside the window, out of the iterator.
    fn take_position(&mut self, index: usize) -> (r: Option<(Key, usize, &'a mut T)>)
        requires
            index < old(self).front || old(self).back <= index,
            old(self).front <= old(self).back <= old(self).slots@.len(),
            index < old(self).slots@.len(),
        ensures
            r == old(self).slots@[index as int],
            final(self)@ == old(self)@,
            final(self).remaining == old(self).remaining,
            final(self).front == old(self).front,
            final(self).back == old(self).back,
            final(self).slots@.len() == old(self).slots@.len(),
    {
        let mut taken = None;
        std::mem::swap(&mut self.slots[index], &mut taken);
        proof {
            assert(self@ =~= old(self)@);
        }
        taken
    }

    /// Yields the occupied position with the lowest key not yet yielded.
    pub fn next(&mut self) -> (r: Option<(Key, usize, &'a mut T)>)
        requires
            old(self).wf(),
        ensures
            final(self).wf(),
            first_some(old(self)@) < old(self)@.len() ==> {
                &&& r == old(self)@[first_some(old(self)@)]
                &&& final(self)@ == old(self)@.subrange(first_some(old(self)@) + 1, old(self)@.len() as int)
            },
            first_some(old(self)@) >= old(self)@.len() ==> r is None && final(self)@.len() == 0,
    {
        while self.front < self.back
            invariant
                old(self).front <= self.front <= self.back <= self.slots@.len(),
                self.back == old(self).back,
                self.slots@ == old(self).slots@,
                self.remaining == old(self).remaining,
                self@ == old(self)@.subrange(self.front - old(self).front, old(self)@.len() as int),
                first_some(old(self)@) == (self.front - old(self).front) + first_some(self@),
                count_some(self@) == count_some(old(self)@),
                old(self).wf(),
            decreases self.back - self.front,
        {
            let index = self.front;
            let ghost w = self@;
            let occupied = match &self.slots[index] {
                Some(_) => true,
                None => false,
            };
            proof {
                assert(w[0] == self.slots@[index as int]);
                assert(occupied == w[0] is Some);
                lemma_count_some_front(self@);
                assert(self@.drop_first() =~= old(self)@.subrange(
                    index + 1 - old(self).front,
                    old(self)@.len() as int,
                ));
            }
            self.front = self.front + 1;
            proof {
                assert(self@ =~= w.drop_first());
            }
            if occupied {
                self.remaining = self.remaining - 1;
                return self.take_position(index);
            }
        }
        proof {
            assert(self@.len() == 0);
        }
        None
    }

    /// Yields the occupied position with the highest key not yet yielded.
    pub fn next_back(&mut self) -> (r: Option<(Key, usize, &'a mut T)>)
        requires
            old(self).wf(),
        ensures
            final(self).wf(),
            last_some(old(self)@) >= 0 ==> {
                &&& r == old(self)@[last_some(old(self)@)]
                &&& final(self)@ == old(self)@.subrange(0, last_some(old(self)@))
            },
            last_some(old(self)@) < 0 ==> r is None && final(self)@.len() == 0,
    {
        while self.front < self.back
            invariant
                self.front <= self.back <= old(self).back,
                self.front == old(self).front,
                old(self).back <= self.slots@.len(),
                self.slots@ == old(self).slots@,
                self.remaining == old(self).remaining,
                self@ == old(self)@.subrange(0, self.back - self.front),
                last_some(old(self)@) == last_some(self@),
                count_some(self@) == count_some(old(self)@),
                old(self).wf(),
            decreases self.back - self.front,
        {
            let ghost w = self@;
            self.back = self.back - 1;
            let index = self.back;
            let occupied = match &self.slots[index] {
                Some(_) => true,
                None => false,
            };
            proof {
                assert(w.last() == self.slots@[index as int]);
                assert(occupied == w.last() is Some);
                assert(self@ =~= w.drop_last());
                assert(w.drop_last() =~= old(self)@.subrange(0, index - self.front));
            }
            if occupied {
                self.remaining = self.remaining - 1;
                return self.take_position(index);
            }
        }
        proof {
            assert(self@.len() == 0);
        }
        None
    }

    /// The number of elements left to yield.
    pub fn len(&self) -> (r: usize)
        requires
            self.wf(),
        ensures
            r == count_some(self@),
    {
        self.remaining
    }

    /// Once the iterator is done with, the references it still holds keep
    /// their elements: what was never yielded is not changed.
    pub proof fn lemma_rest_unchanged(&self)
        requires
            self.wf(),
            has_resolved(*self),
        ensures
            forall|i: int|
                0 <= i < self@.len() && (#[trigger] self@[i]) is Some ==> *final(reference_at(self@[i]))
                    == *reference_at(self@[i]),
    {
        assert(has_resolved(self.slots));
        assert forall|i: int| 0 <= i < self@.len() implies #[trigger] self@[i] == self.slots@[self.front + i]
            && has_resolved(self.slots@[self.front + i]) by {}
    }
}

} // verus!
