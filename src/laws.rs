use crate::model::{
    count_occupied, freed, lemma_live_count, lemma_totals_update, live, live_range, put_free, put_key, put_slots,
    removed, slot_at, total_items, Slot,
};
use crate::MultiStash;
use vstd::prelude::*;

verus! {

/// Looking up the key that `put` hands out gives back what was put.
pub proof fn lemma_put_then_get<T>(stash: &MultiStash<T>, amount: nat, item: T)
    requires
        stash.wf(),
        amount > 0,
        total_items(stash@) + amount <= usize::MAX,
    ensures
        slot_at(
            put_slots(stash@, stash.free_list(), amount, item),
            put_key(stash@, stash.free_list()),
        ) == Some((amount, item)),
{
    stash.lemma_items_cover_occupied();
    stash.lemma_free_list_vacant();
    if stash.free_list().len() > 0 {
        assert(stash.free_list()[0] < stash@.len());
    }
}

/// Vacated slots are reused most recently vacated first: after removing the
/// elements at `first` and then at `second`, while others remain, the next
/// two `put`s hand out `second` and then `first`.
pub proof fn lemma_reuse_last_vacated_first<T>(
    stash: &MultiStash<T>,
    first: usize,
    second: usize,
    a: (nat, T),
)
    requires
        stash.wf(),
        first != second,
        slot_at(stash@, first) is Some,
        slot_at(stash@, second) is Some,
        count_occupied(stash@) > 2,
    ensures
        ({
            let slots = stash@;
            let free_list = stash.free_list();
            let s1 = removed(slots, first);
            let f1 = freed(slots, free_list, first);
            let s2 = removed(s1, second);
            let f2 = freed(s1, f1, second);
            &&& put_key(s2, f2) == second
            &&& put_key(put_slots(s2, f2, a.0, a.1), put_free(f2)) == first
        }),
{
    let slots = stash@;
    let free_list = stash.free_list();
    let s1 = removed(slots, first);
    let f1 = freed(slots, free_list, first);
    lemma_totals_update(slots, first as int, None);
    assert(count_occupied(s1) + 1 == count_occupied(slots));
    let s2 = removed(s1, second);
    let f2 = freed(s1, f1, second);
    assert(f1 == seq![first] + free_list);
    assert(f2 == seq![second] + f1);
    assert(put_free(f2) =~= f1);
}

/// What an iteration yields agrees with lookups: it yields one entry per
/// element, each yielded key holds the yielded count and element, and keys
/// strictly ascend, so that a traversal from the back yields the same entries
/// in exactly the reverse order.
pub proof fn lemma_iteration_matches_lookup<T>(stash: &MultiStash<T>)
    requires
        stash.wf(),
    ensures
        live(stash@).len() == count_occupied(stash@),
        forall|j: int|
            0 <= j < live(stash@).len() ==> slot_at(stash@, (#[trigger] live(stash@)[j]).0) == Some(
                (live(stash@)[j].1, live(stash@)[j].2),
            ),
        forall|j: int, l: int|
            0 <= j < l < live(stash@).len() ==> (#[trigger] live(stash@)[j]).0 < (#[trigger] live(
                stash@,
            )[l]).0,
{
    let slots = stash@;
    stash.lemma_items_cover_occupied();
    lemma_live_range_sound(slots, slots.len() as int);
    lemma_live_count(slots, slots.len() as int);
    assert(slots.take(slots.len() as int) =~= slots);
}

proof fn lemma_live_range_sound<T>(slots: Seq<Slot<T>>, hi: int)
    requires
        0 <= hi <= slots.len() <= usize::MAX,
    ensures
        forall|j: int|
            0 <= j < live_range(slots, 0, hi).len() ==> {
                let e = #[trigger] live_range(slots, 0, hi)[j];
                &&& e.0 < hi
                &&& slot_at(slots, e.0) == Some((e.1, e.2))
            },
        forall|j: int, l: int|
            0 <= j < l < live_range(slots, 0, hi).len() ==> (#[trigger] live_range(slots, 0, hi)[j]).0
                < (#[trigger] live_range(slots, 0, hi)[l]).0,
    decreases hi,
{
    if hi > 0 {
        lemma_live_range_sound(slots, hi - 1);
        let rest = live_range(slots, 0, hi - 1);
        let all = live_range(slots, 0, hi);
        match slots[hi - 1] {
            Some((n, x)) => {
                assert(all == rest.push(((hi - 1) as usize, n, x)));
                assert(slot_at(slots, (hi - 1) as usize) == Some((n, x)));
            },
            None => {
                assert(all == rest);
            },
        }
        assert forall|j: int| 0 <= j < rest.len() implies #[trigger] all[j] == rest[j] by {}
        assert forall|j: int| 0 <= j < all.len() implies {
            let e = #[trigger] all[j];
            &&& e.0 < hi
            &&& slot_at(slots, e.0) == Some((e.1, e.2))
        } by {
            if j < rest.len() {
                assert(all[j] == rest[j]);
            }
        }
        assert forall|j: int, l: int| 0 <= j < l < all.len() implies (#[trigger] all[j]).0 < (#[trigger] all[l]).0 by {
            assert(all[j] == rest[j]);
            if l < rest.len() {
                assert(all[l] == rest[l]);
            }
        }
    }
}

} // verus!
