use crate::entry::Entry;
use vstd::prelude::*;

verus! {

/// The abstract content of one slot: `None` when vacant, else the remaining
/// count and the element.
pub type Slot<T> = Option<(nat, T)>;

/// The slot that an entry stands for.
pub open spec fn slot_of<T>(e: Entry<T>) -> Slot<T> {
    match e {
        Entry::Vacant(_) => None,
        Entry::Occupied(o) => Some((o.remaining as nat, o.item)),
    }
}

/// The slots that a sequence of entries stands for.
pub open spec fn slots_of<T>(entries: Seq<Entry<T>>) -> Seq<Slot<T>> {
    entries.map_values(|e: Entry<T>| slot_of(e))
}

/// The occupied slots among those with index in `lo..hi`, in ascending order,
/// each as its index, its remaining count and its element.
pub open spec fn live_range<T>(slots: Seq<Slot<T>>, lo: int, hi: int) -> Seq<(usize, nat, T)>
    decreases hi - lo,
{
    if hi <= lo {
        Seq::empty()
    } else {
        let rest = live_range(slots, lo, hi - 1);
        match slots[hi - 1] {
            Some((n, x)) => rest.push(((hi - 1) as usize, n, x)),
            None => rest,
        }
    }
}

/// The occupied slots in ascending order of index.
pub open spec fn live<T>(slots: Seq<Slot<T>>) -> Seq<(usize, nat, T)> {
    live_range(slots, 0, slots.len() as int)
}

/// Taking the lowest slot of a range off its front.
pub(crate) proof fn lemma_live_range_front<T>(slots: Seq<Slot<T>>, lo: int, hi: int)
    requires
        lo < hi,
    ensures
        live_range(slots, lo, hi) == match slots[lo] {
            Some((n, x)) => seq![(lo as usize, n, x)] + live_range(slots, lo + 1, hi),
            None => live_range(slots, lo + 1, hi),
        },
    decreases hi - lo,
{
    if hi - 1 > lo {
        lemma_live_range_front(slots, lo, hi - 1);
        match slots[lo] {
            Some((n, x)) => {
                match slots[hi - 1] {
                    Some(_) => {
                        assert(live_range(slots, lo, hi) =~= seq![(lo as usize, n, x)] + live_range(
                            slots,
                            lo + 1,
                            hi,
                        ));
                    },
                    None => {},
                }
            },
            None => {},
        }
    } else {
        assert(live_range(slots, lo + 1, hi) =~= Seq::<(usize, nat, T)>::empty());
        assert(live_range(slots, lo, hi - 1) =~= Seq::<(usize, nat, T)>::empty());
        match slots[lo] {
            Some((n, x)) => {
                assert(live_range(slots, lo, hi) =~= seq![(lo as usize, n, x)]);
            },
            None => {},
        }
    }
}

/// A range holds as many live slots as its occupied slots.
pub(crate) proof fn lemma_live_count<T>(slots: Seq<Slot<T>>, hi: int)
    requires
        0 <= hi <= slots.len(),
    ensures
        live_range(slots, 0, hi).len() == count_occupied(slots.take(hi)),
    decreases hi,
{
    if hi > 0 {
        lemma_live_count(slots, hi - 1);
        assert(slots.take(hi).drop_last() =~= slots.take(hi - 1));
    } else {
        assert(slots.take(hi) =~= Seq::<Slot<T>>::empty());
    }
}

/// The slot at `index`, `None` where `index` is out of bounds.
pub open spec fn slot_at<T>(slots: Seq<Slot<T>>, index: usize) -> Slot<T> {
    if index < slots.len() {
        slots[index as int]
    } else {
        None
    }
}

/// The number of items a slot holds.
pub open spec fn items_of<T>(s: Slot<T>) -> nat {
    match s {
        Some((n, _)) => n,
        None => 0,
    }
}

/// The sum of the remaining counts of all occupied slots.
pub open spec fn total_items<T>(slots: Seq<Slot<T>>) -> nat
    decreases slots.len(),
{
    if slots.len() == 0 {
        0
    } else {
        total_items(slots.drop_last()) + items_of(slots.last())
    }
}

/// The number of occupied slots.
pub open spec fn count_occupied<T>(slots: Seq<Slot<T>>) -> nat
    decreases slots.len(),
{
    if slots.len() == 0 {
        0
    } else {
        count_occupied(slots.drop_last()) + if slots.last() is Some {
            1nat
        } else {
            0nat
        }
    }
}

/// Replacing one slot changes the totals by the difference of the two slots.
pub(crate) proof fn lemma_totals_update<T>(slots: Seq<Slot<T>>, i: int, s: Slot<T>)
    requires
        0 <= i < slots.len(),
    ensures
        total_items(slots.update(i, s)) + items_of(slots[i]) == total_items(slots) + items_of(s),
        count_occupied(slots.update(i, s)) + (if slots[i] is Some { 1int } else { 0int })
            == count_occupied(slots) + (if s is Some { 1int } else { 0int }),
    decreases slots.len(),
{
    let u = slots.update(i, s);
    if i < slots.len() - 1 {
        assert(u.drop_last() =~= slots.drop_last().update(i, s));
        lemma_totals_update(slots.drop_last(), i, s);
    } else {
        assert(u.drop_last() =~= slots.drop_last());
    }
}

pub(crate) proof fn lemma_totals_push<T>(slots: Seq<Slot<T>>, s: Slot<T>)
    ensures
        total_items(slots.push(s)) == total_items(slots) + items_of(s),
        count_occupied(slots.push(s)) == count_occupied(slots) + (if s is Some { 1nat } else { 0nat }),
{
    assert(slots.push(s).drop_last() =~= slots);
}

/// With every occupied slot holding at least one item, the item total bounds
/// the occupied count, which bounds the number of slots.
pub(crate) proof fn lemma_totals_bounds<T>(slots: Seq<Slot<T>>)
    requires
        forall|i: int| 0 <= i < slots.len() && (#[trigger] slots[i]) is Some ==> items_of(slots[i]) > 0,
    ensures
        count_occupied(slots) <= total_items(slots),
        count_occupied(slots) <= slots.len(),
        count_occupied(slots) == 0 ==> forall|i: int| 0 <= i < slots.len() ==> slots[i] is None,
        count_occupied(slots) == 0 ==> total_items(slots) == 0,
        count_occupied(slots) == slots.len() ==> forall|i: int| 0 <= i < slots.len() ==> slots[i] is Some,
    decreases slots.len(),
{
    if slots.len() > 0 {
        lemma_totals_bounds(slots.drop_last());
        assert forall|i: int| 0 <= i < slots.len() - 1 implies slots[i] == slots.drop_last()[i] by {}
    }
}

pub(crate) proof fn lemma_view_update<T>(entries: Seq<Entry<T>>, i: int, e: Entry<T>)
    requires
        0 <= i < entries.len(),
    ensures
        slots_of(entries.update(i, e)) == slots_of(entries).update(i, slot_of(e)),
{
    assert(slots_of(entries.update(i, e)) =~= slots_of(entries).update(i, slot_of(e)));
}

pub(crate) proof fn lemma_view_push<T>(entries: Seq<Entry<T>>, e: Entry<T>)
    ensures
        slots_of(entries.push(e)) == slots_of(entries).push(slot_of(e)),
{
    assert(slots_of(entries.push(e)) =~= slots_of(entries).push(slot_of(e)));
}

/// The sum of the amounts of `items`.
pub open spec fn sum_amounts<T>(items: Seq<(usize, T)>) -> nat
    decreases items.len(),
{
    if items.len() == 0 {
        0
    } else {
        sum_amounts(items.drop_last()) + items.last().0 as nat
    }
}

/// The slots and free list after putting each of `items` in order.
pub open spec fn put_all<T>(slots: Seq<Slot<T>>, free_list: Seq<usize>, items: Seq<(usize, T)>) -> (
    Seq<Slot<T>>,
    Seq<usize>,
)
    decreases items.len(),
{
    if items.len() == 0 {
        (slots, free_list)
    } else {
        let (s, f) = put_all(slots, free_list, items.drop_last());
        (put_slots(s, f, items.last().0 as nat, items.last().1), put_free(f))
    }
}

pub(crate) proof fn lemma_sum_amounts_prefix<T>(items: Seq<(usize, T)>, i: int)
    requires
        0 <= i <= items.len(),
    ensures
        sum_amounts(items.take(i)) <= sum_amounts(items),
    decreases items.len() - i,
{
    if i < items.len() {
        lemma_sum_amounts_prefix(items, i + 1);
        assert(items.take(i + 1).drop_last() =~= items.take(i));
    } else {
        assert(items.take(i) =~= items);
    }
}

/// The key that `put` hands out: the head of the free list, or the first
/// index past the end when no slot is vacant.
pub open spec fn put_key<T>(slots: Seq<Slot<T>>, free_list: Seq<usize>) -> usize {
    if free_list.len() == 0 {
        slots.len() as usize
    } else {
        free_list[0]
    }
}

/// The slots after `put` stores `amount` items of `item`.
pub open spec fn put_slots<T>(slots: Seq<Slot<T>>, free_list: Seq<usize>, amount: nat, item: T) -> Seq<Slot<T>> {
    if free_list.len() == 0 {
        slots.push(Some((amount, item)))
    } else {
        slots.update(free_list[0] as int, Some((amount, item)))
    }
}

/// The free list after `put`: without its head.
pub open spec fn put_free(free_list: Seq<usize>) -> Seq<usize> {
    if free_list.len() == 0 {
        free_list
    } else {
        free_list.drop_first()
    }
}

/// The element held by an occupied slot.
pub open spec fn item_of<T>(s: Slot<T>) -> T
    recommends
        s is Some,
{
    match s {
        Some((_, x)) => x,
        None => arbitrary(),
    }
}

/// The slots after removing the element at `index`: all empty when it was the
/// last element, else that one slot made vacant.
pub open spec fn removed<T>(slots: Seq<Slot<T>>, index: usize) -> Seq<Slot<T>> {
    if count_occupied(slots) <= 1 {
        Seq::empty()
    } else {
        slots.update(index as int, None)
    }
}

/// The free list after removing the element at `index`: empty when it was the
/// last element, else `index` in front of the old free list.
pub open spec fn freed<T>(slots: Seq<Slot<T>>, free_list: Seq<usize>, index: usize) -> Seq<usize> {
    if count_occupied(slots) <= 1 {
        Seq::empty()
    } else {
        seq![index] + free_list
    }
}

/// A table without vacant slots has all its slots occupied.
pub(crate) proof fn lemma_all_occupied<T>(slots: Seq<Slot<T>>)
    requires
        forall|i: int| 0 <= i < slots.len() ==> (#[trigger] slots[i]) is Some,
    ensures
        count_occupied(slots) == slots.len(),
    decreases slots.len(),
{
    if slots.len() > 0 {
        lemma_all_occupied(slots.drop_last());
    }
}

} // verus!

verus! {

/// Tables that agree slot by slot on occupancy and counts have the same totals.
pub(crate) proof fn lemma_totals_same_counts<T>(a: Seq<Slot<T>>, b: Seq<Slot<T>>)
    requires
        a.len() == b.len(),
        forall|i: int| 0 <= i < a.len() ==> (#[trigger] a[i] is Some) == (b[i] is Some),
        forall|i: int| 0 <= i < a.len() ==> #[trigger] items_of(a[i]) == items_of(b[i]),
    ensures
        total_items(a) == total_items(b),
        count_occupied(a) == count_occupied(b),
    decreases a.len(),
{
    if a.len() > 0 {
        let (x, y) = (a.drop_last(), b.drop_last());
        assert forall|i: int| 0 <= i < x.len() implies (#[trigger] x[i] is Some) == (y[i] is Some) by {
            assert(a[i] is Some == (b[i] is Some));
        }
        assert forall|i: int| 0 <= i < x.len() implies #[trigger] items_of(x[i]) == items_of(y[i]) by {
            assert(items_of(a[i]) == items_of(b[i]));
        }
        lemma_totals_same_counts(x, y);
        assert(a[a.len() - 1] is Some == (b[a.len() - 1] is Some));
        assert(items_of(a[a.len() - 1]) == items_of(b[a.len() - 1]));
    }
}

} // verus!
