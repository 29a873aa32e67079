use crate::entry::{Entry, VacantEntry};
use vstd::prelude::*;

verus! {

/// `fl` is the free list threaded through the vacant entries, starting at `free`:
/// each vacant entry on it links to the next one, the last to `entries.len()`,
/// and every vacant entry is on it exactly once.
pub open spec fn free_chain<T>(entries: Seq<Entry<T>>, free: usize, fl: Seq<usize>) -> bool {
    &&& entries.len() <= usize::MAX
    &&& free as int == if fl.len() == 0 { entries.len() as int } else { fl[0] as int }
    &&& forall|k: int|
        0 <= k < fl.len() ==> {
            &&& fl[k] < entries.len()
            &&& (#[trigger] entries[fl[k] as int]) is Vacant
            &&& entries[fl[k] as int]->Vacant_0.next_free as int == if k + 1 < fl.len() {
                fl[k + 1] as int
            } else {
                entries.len() as int
            }
        }
    &&& fl.no_duplicates()
    &&& forall|i: int|
        0 <= i < entries.len() && (#[trigger] entries[i]) is Vacant ==> fl.contains(i as usize)
}

/// The facts that `free_chain` states of the `k`-th slot of the free list.
pub(crate) proof fn lemma_chain_at<T>(entries: Seq<Entry<T>>, free: usize, fl: Seq<usize>, k: int)
    requires
        free_chain(entries, free, fl),
        0 <= k < fl.len(),
    ensures
        fl[k] < entries.len(),
        entries[fl[k] as int] is Vacant,
        entries[fl[k] as int]->Vacant_0.next_free as int == if k + 1 < fl.len() {
            fl[k + 1] as int
        } else {
            entries.len() as int
        },
{
    assert(entries[fl[k] as int] is Vacant);
}

/// The free list is determined by the entries and its head.
pub(crate) proof fn lemma_free_chain_unique<T>(entries: Seq<Entry<T>>, free: usize, a: Seq<usize>, b: Seq<usize>)
    requires
        free_chain(entries, free, a),
        free_chain(entries, free, b),
    ensures
        a == b,
{
    assert forall|k: int| 0 <= k < a.len() && k < b.len() implies a[k] == b[k] by {
        lemma_free_chain_prefix(entries, free, a, b, k);
    }
    if a.len() < b.len() {
        lemma_free_chain_prefix(entries, free, a, b, a.len() - 1);
        if a.len() > 0 {
            lemma_chain_at(entries, free, a, a.len() - 1);
            lemma_chain_at(entries, free, b, a.len() - 1);
            lemma_chain_at(entries, free, b, a.len() as int);
        } else {
            lemma_chain_at(entries, free, b, 0);
        }
    } else if b.len() < a.len() {
        lemma_free_chain_prefix(entries, free, a, b, b.len() - 1);
        if b.len() > 0 {
            lemma_chain_at(entries, free, b, b.len() - 1);
            lemma_chain_at(entries, free, a, b.len() - 1);
            lemma_chain_at(entries, free, a, b.len() as int);
        } else {
            lemma_chain_at(entries, free, a, 0);
        }
    }
    assert(a =~= b);
}

proof fn lemma_free_chain_prefix<T>(entries: Seq<Entry<T>>, free: usize, a: Seq<usize>, b: Seq<usize>, k: int)
    requires
        free_chain(entries, free, a),
        free_chain(entries, free, b),
        k < a.len(),
        k < b.len(),
    ensures
        0 <= k ==> a[k] == b[k],
    decreases k,
{
    if k > 0 {
        lemma_free_chain_prefix(entries, free, a, b, k - 1);
        lemma_chain_at(entries, free, a, k - 1);
        lemma_chain_at(entries, free, b, k - 1);
    }
}

/// Appending an occupied entry to a table without vacant entries keeps the
/// (empty) free list, now rooted at the new length.
pub(crate) proof fn lemma_chain_push<T>(entries: Seq<Entry<T>>, fl: Seq<usize>, e: Entry<T>)
    requires
        free_chain(entries, entries.len() as usize, fl),
        entries.len() < usize::MAX,
        e is Occupied,
    ensures
        free_chain(entries.push(e), (entries.len() + 1) as usize, fl),
{
    let n = entries.push(e);
    assert(fl.len() == 0) by {
        if fl.len() > 0 {
            lemma_chain_at(entries, entries.len() as usize, fl, 0);
        }
    }
    assert forall|i: int| 0 <= i < n.len() && (#[trigger] n[i]) is Vacant implies fl.contains(i as usize) by {
        assert(entries[i] is Vacant);
    }
}

/// Filling the head of the free list with an occupied entry leaves the rest of
/// the list, rooted at the head's link.
pub(crate) proof fn lemma_chain_claim<T>(entries: Seq<Entry<T>>, fl: Seq<usize>, e: Entry<T>)
    requires
        fl.len() > 0,
        free_chain(entries, fl[0], fl),
        e is Occupied,
    ensures
        free_chain(
            entries.update(fl[0] as int, e),
            entries[fl[0] as int]->Vacant_0.next_free,
            fl.drop_first(),
        ),
{
    let n = entries.update(fl[0] as int, e);
    let rest = fl.drop_first();
    lemma_chain_at(entries, fl[0], fl, 0);
    assert forall|k: int| 0 <= k < rest.len() implies {
        &&& rest[k] < n.len()
        &&& (#[trigger] n[rest[k] as int]) is Vacant
        &&& n[rest[k] as int]->Vacant_0.next_free as int == if k + 1 < rest.len() {
            rest[k + 1] as int
        } else {
            n.len() as int
        }
    } by {
        assert(rest[k] == fl[k + 1]);
        assert(rest[k] != fl[0]);
        lemma_chain_at(entries, fl[0], fl, k + 1);
    }
    assert forall|i: int| 0 <= i < n.len() && (#[trigger] n[i]) is Vacant implies rest.contains(i as usize) by {
        assert(entries[i] is Vacant);
        assert(fl.contains(i as usize));
        let j = choose|j: int| 0 <= j < fl.len() && fl[j] == i as usize;
        if j == 0 {
            assert(i == fl[0] as int);
            assert(n[i] == e);
        }
        assert(rest[j - 1] == i as usize);
    }
    assert(rest.no_duplicates()) by {
        assert forall|a: int, b: int| 0 <= a < rest.len() && 0 <= b < rest.len() && a != b
            implies rest[a] != rest[b] by {
            assert(rest[a] == fl[a + 1] && rest[b] == fl[b + 1]);
        }
    }
}

/// Replacing an occupied entry by another occupied entry keeps the free list.
pub(crate) proof fn lemma_chain_keep<T>(entries: Seq<Entry<T>>, free: usize, fl: Seq<usize>, i: int, e: Entry<T>)
    requires
        free_chain(entries, free, fl),
        0 <= i < entries.len(),
        entries[i] is Occupied,
        e is Occupied,
    ensures
        free_chain(entries.update(i, e), free, fl),
{
    let n = entries.update(i, e);
    assert forall|k: int| 0 <= k < fl.len() implies {
        &&& fl[k] < n.len()
        &&& (#[trigger] n[fl[k] as int]) is Vacant
        &&& n[fl[k] as int]->Vacant_0.next_free as int == if k + 1 < fl.len() {
            fl[k + 1] as int
        } else {
            n.len() as int
        }
    } by {
        lemma_chain_at(entries, free, fl, k);
    }
    assert forall|j: int| 0 <= j < n.len() && (#[trigger] n[j]) is Vacant implies fl.contains(j as usize) by {
        assert(entries[j] is Vacant);
    }
}

/// Vacating an occupied entry pushes it on the front of the free list.
pub(crate) proof fn lemma_chain_vacate<T>(entries: Seq<Entry<T>>, free: usize, fl: Seq<usize>, i: int)
    requires
        free_chain(entries, free, fl),
        0 <= i < entries.len(),
        entries[i] is Occupied,
    ensures
        free_chain(
            entries.update(i, Entry::Vacant(VacantEntry { next_free: free })),
            i as usize,
            seq![i as usize] + fl,
        ),
{
    let n = entries.update(i, Entry::Vacant(VacantEntry { next_free: free }));
    let nfl = seq![i as usize] + fl;
    assert forall|k: int| 0 <= k < fl.len() implies fl[k] != i by {
        lemma_chain_at(entries, free, fl, k);
    }
    assert forall|k: int| 0 <= k < nfl.len() implies {
        &&& nfl[k] < n.len()
        &&& (#[trigger] n[nfl[k] as int]) is Vacant
        &&& n[nfl[k] as int]->Vacant_0.next_free as int == if k + 1 < nfl.len() {
            nfl[k + 1] as int
        } else {
            n.len() as int
        }
    } by {
        if k == 0 {
            assert(nfl[0] as int == i);
            if fl.len() > 0 {
                assert(nfl[1] == fl[0]);
            }
        } else {
            assert(nfl[k] == fl[k - 1]);
            lemma_chain_at(entries, free, fl, k - 1);
            if k + 1 < nfl.len() {
                assert(nfl[k + 1] == fl[k]);
            }
        }
    }
    assert forall|j: int| 0 <= j < n.len() && (#[trigger] n[j]) is Vacant implies nfl.contains(j as usize) by {
        if j == i {
            assert(nfl[0] == j as usize);
        } else {
            assert(entries[j] is Vacant);
            let m = choose|m: int| 0 <= m < fl.len() && fl[m] == j as usize;
            assert(nfl[m + 1] == j as usize);
        }
    }
    assert(nfl.no_duplicates()) by {
        assert forall|a: int, b: int| 0 <= a < nfl.len() && 0 <= b < nfl.len() && a != b
            implies nfl[a] != nfl[b] by {
            if a > 0 {
                assert(nfl[a] == fl[a - 1]);
            }
            if b > 0 {
                assert(nfl[b] == fl[b - 1]);
            }
        }
    }
}

} // verus!

verus! {

/// Changing only occupied entries, and keeping them occupied, keeps the free list.
pub(crate) proof fn lemma_chain_same_vacancies<T>(
    entries: Seq<Entry<T>>,
    other: Seq<Entry<T>>,
    free: usize,
    fl: Seq<usize>,
)
    requires
        free_chain(entries, free, fl),
        other.len() == entries.len(),
        forall|i: int| 0 <= i < entries.len() && entries[i] is Vacant ==> #[trigger] other[i] == entries[i],
        forall|i: int| 0 <= i < entries.len() && entries[i] is Occupied ==> (#[trigger] other[i]) is Occupied,
    ensures
        free_chain(other, free, fl),
{
    assert forall|k: int| 0 <= k < fl.len() implies {
        &&& fl[k] < other.len()
        &&& (#[trigger] other[fl[k] as int]) is Vacant
        &&& other[fl[k] as int]->Vacant_0.next_free as int == if k + 1 < fl.len() {
            fl[k + 1] as int
        } else {
            other.len() as int
        }
    } by {
        lemma_chain_at(entries, free, fl, k);
    }
    assert forall|i: int| 0 <= i < other.len() && (#[trigger] other[i]) is Vacant implies fl.contains(i as usize) by {
        if entries[i] is Occupied {
            assert(other[i] is Occupied);
        }
        assert(entries[i] is Vacant);
    }
}

} // verus!
