use multi_stash::{Entry, Key, MultiStash, OccupiedEntry, VacantEntry};

#[test]
fn counts_bound_each_other() {
    let mut stash = MultiStash::new();
    stash.put(4, 'A');
    stash.put(1, 'B');
    stash.put(2, 'C');
    stash.take_all(Key(1));
    assert!(stash.len_items() >= stash.len());
    assert_eq!(stash.len_items(), 6);
    assert_eq!(stash.len(), 2);
}

#[test]
fn drained_stash_restarts_at_key_zero() {
    let mut stash = MultiStash::new();
    assert_eq!(stash.put(1, 'A'), Key(0));
    assert_eq!(stash.put(2, 'B'), Key(1));
    assert_eq!(stash.take_one(Key(0)), Some((0, 'A')));
    assert_eq!(stash.take_all(Key(1)), Some((2, 'B')));
    assert!(stash.is_empty());
    assert_eq!(stash.len(), 0);
    assert_eq!(stash.len_items(), 0);
    assert_eq!(stash.iter().len(), 0);
    assert_eq!(stash.put(7, 'Z'), Key(0));
}

#[test]
fn put_then_get_round_trip() {
    let mut stash = MultiStash::new();
    stash.put(2, "x".to_string());
    let key = stash.put(5, "y".to_string());
    assert_eq!(stash.get(key), Some((5, &"y".to_string())));
}

#[test]
fn vacated_slots_are_reused_most_recent_first() {
    let mut stash = MultiStash::new();
    assert_eq!(stash.put(3, 'A'), Key(0));
    assert_eq!(stash.put(2, 'B'), Key(1));
    assert_eq!(stash.put(4, 'C'), Key(2));
    assert_eq!(stash.take_all(Key(1)), Some((2, 'B')));
    assert_eq!(stash.take_all(Key(0)), Some((3, 'A')));
    assert_eq!(stash.put(1, 'D'), Key(0));
    assert_eq!(stash.put(1, 'E'), Key(1));
    assert_eq!(stash.put(1, 'F'), Key(3));
}

#[test]
fn take_all_order_decides_reuse() {
    let mut stash = MultiStash::new();
    stash.put(3, 'A');
    stash.put(2, 'B');
    stash.put(4, 'C');
    assert_eq!(stash.take_all(Key(1)), Some((2, 'B')));
    assert_eq!(stash.take_all(Key(0)), Some((3, 'A')));
    assert_eq!(stash.put(1, 'D'), Key(0));
    assert_eq!(stash.get(Key(0)), Some((1, &'D')));
    assert_eq!(stash.put(1, 'E'), Key(1));
    assert_eq!(stash.get(Key(1)), Some((1, &'E')));
}

#[test]
fn take_one_counts_down_to_removal() {
    let mut stash = MultiStash::new();
    stash.put(1, 'q');
    let key = stash.put(3, 'x');
    assert_eq!(stash.take_one(key), Some((2, 'x')));
    assert_eq!(stash.get(key), Some((2, &'x')));
    assert_eq!(stash.take_one(key), Some((1, 'x')));
    assert_eq!(stash.take_one(key), Some((0, 'x')));
    assert_eq!(stash.take_one(key), None);
    assert_eq!(stash.get(key), None);
    assert_eq!(stash.len(), 1);
}

#[test]
fn bump_by_zero_and_more() {
    let mut stash = MultiStash::new();
    let key = stash.put(2, 'b');
    assert_eq!(stash.bump(key, 0), Some(2));
    assert_eq!(stash.get(key), Some((2, &'b')));
    assert_eq!(stash.bump(key, 5), Some(2));
    assert_eq!(stash.get(key), Some((7, &'b')));
    assert_eq!(stash.len_items(), 7);
    assert_eq!(stash.bump(Key(3), 1), None);
}

#[test]
fn absent_keys_give_nothing() {
    let mut stash = MultiStash::new();
    stash.put(1, 'a');
    stash.put(1, 'b');
    stash.take_all(Key(0));
    assert_eq!(stash.get(Key(0)), None);
    assert_eq!(stash.get_mut(Key(0)), None);
    assert_eq!(stash.take_all(Key(0)), None);
    assert_eq!(stash.take_one(Key(0)), None);
    assert_eq!(stash.bump(Key(0), 1), None);
    assert_eq!(stash.take_all(Key(5)), None);
    assert_eq!(stash.len(), 1);
    assert_eq!(stash.len_items(), 1);
}

#[test]
fn iteration_matches_lookup_both_ways() {
    let mut stash = MultiStash::new();
    stash.extend(vec![(2, 'A'), (3, 'B'), (1, 'C'), (5, 'D')]);
    stash.take_all(Key(1));
    let mut forward = Vec::new();
    let mut it = stash.iter();
    assert_eq!(it.len(), 3);
    while let Some((key, count, item)) = it.next() {
        assert_eq!(stash.get(key), Some((count, item)));
        forward.push((key, count, *item));
    }
    assert_eq!(forward.len(), stash.len());
    assert_eq!(forward, vec![(Key(0), 2, 'A'), (Key(2), 1, 'C'), (Key(3), 5, 'D')]);
    let mut backward = Vec::new();
    let mut it = stash.iter();
    while let Some((key, count, item)) = it.next_back() {
        backward.push((key, count, *item));
    }
    backward.reverse();
    assert_eq!(backward, forward);
}

#[test]
fn iterators_meet_in_the_middle() {
    let stash = MultiStash::from_iter(vec![(1, 'a'), (2, 'b'), (3, 'c')]);
    let mut it = stash.iter();
    assert_eq!(it.next(), Some((Key(0), 1, &'a')));
    assert_eq!(it.next_back(), Some((Key(2), 3, &'c')));
    assert_eq!(it.len(), 1);
    assert_eq!(it.next_back(), Some((Key(1), 2, &'b')));
    assert_eq!(it.next(), None);
    assert_eq!(it.next_back(), None);
    assert_eq!(it.len(), 0);
}

#[test]
fn iter_mut_writes_through() {
    let mut stash = MultiStash::new();
    stash.extend(vec![(1, 10), (2, 20), (3, 30)]);
    stash.take_all(Key(1));
    {
        let mut it = stash.iter_mut();
        assert_eq!(it.len(), 2);
        let (key, count, item) = it.next_back().unwrap();
        assert_eq!((key, count, *item), (Key(2), 3, 30));
        *item += 1;
        let (key, count, item) = it.next().unwrap();
        assert_eq!((key, count, *item), (Key(0), 1, 10));
        *item += 2;
        assert!(it.next().is_none());
    }
    assert_eq!(stash.get(Key(0)), Some((1, &12)));
    assert_eq!(stash.get(Key(2)), Some((3, &31)));
}

#[test]
fn into_iter_moves_elements_out() {
    let mut stash = MultiStash::new();
    stash.extend(vec![(1, "a".to_string()), (4, "b".to_string()), (2, "c".to_string())]);
    stash.take_one(Key(1));
    stash.take_all(Key(0));
    let mut it = stash.into_iter();
    assert_eq!(it.len(), 2);
    assert_eq!(it.next_back(), Some((Key(2), 2, "c".to_string())));
    assert_eq!(it.next(), Some((Key(1), 3, "b".to_string())));
    assert_eq!(it.next(), None);
    assert_eq!(it.next_back(), None);
}

#[test]
fn get_mut_and_index_mut_change_the_element() {
    let mut stash = MultiStash::new();
    let key = stash.put(2, 5u32);
    if let Some((count, item)) = stash.get_mut(key) {
        assert_eq!(count, 2);
        *item = 6;
    }
    assert_eq!(*stash.index(key), 6);
    *stash.index_mut(key) += 1;
    assert_eq!(stash.get(key), Some((2, &7)));
}

#[test]
fn default_and_with_capacity_are_empty() {
    let stash: MultiStash<u8> = MultiStash::default();
    assert!(stash.is_empty());
    assert_eq!(stash.len_items(), 0);
    let mut stash: MultiStash<u8> = MultiStash::with_capacity(8);
    assert!(stash.capacity() >= 8);
    assert!(stash.is_empty());
    stash.reserve(20);
    assert!(stash.capacity() >= 20);
    stash.reserve_exact(40);
    assert!(stash.capacity() >= 40);
    assert_eq!(stash.put(1, 9), Key(0));
}

#[test]
fn clear_keeps_capacity() {
    let mut stash = MultiStash::with_capacity(4);
    stash.put(3, 'a');
    stash.put(1, 'b');
    let capacity = stash.capacity();
    stash.clear();
    assert!(stash.is_empty());
    assert_eq!(stash.len_items(), 0);
    assert_eq!(stash.capacity(), capacity);
    assert_eq!(stash.put(1, 'c'), Key(0));
}

#[test]
fn from_iter_puts_in_order() {
    let stash = MultiStash::from_iter(vec![(2, 'A'), (3, 'B')]);
    assert_eq!(stash.len(), 2);
    assert_eq!(stash.len_items(), 5);
    assert_eq!(stash.get(Key(1)), Some((3, &'B')));
}

#[test]
fn key_converts_both_ways() {
    let key = Key::from(7usize);
    assert_eq!(key, Key(7));
    assert_eq!(usize::from(key), 7);
    assert!(Key(1) < Key(2));
}

#[test]
fn entries_build_as_given() {
    let vacant: Entry<char> = Entry::from(VacantEntry::new(3));
    assert_eq!(vacant, Entry::Vacant(VacantEntry { next_free: 3 }));
    let occupied = Entry::from(OccupiedEntry::new('x', 2));
    assert_eq!(occupied, Entry::Occupied(OccupiedEntry { remaining: 2, item: 'x' }));
}

#[test]
fn equal_stashes_compare_equal() {
    let a = MultiStash::from_iter(vec![(1, 'a'), (2, 'b')]);
    let mut b = MultiStash::new();
    b.put(1, 'a');
    b.put(2, 'b');
    assert_eq!(a, b);
    b.bump(Key(0), 1);
    assert_ne!(a, b);
}

#[test]
fn iter_mut_keeps_shape_and_free_list() {
    let mut stash = MultiStash::new();
    stash.extend(vec![(1, 10), (2, 20), (3, 30), (4, 40)]);
    stash.take_all(Key(2));
    stash.take_all(Key(0));
    {
        let mut it = stash.iter_mut();
        assert_eq!(it.len(), 2);
        while let Some((_, count, item)) = it.next() {
            *item += count as i32;
        }
    }
    assert_eq!(stash.len(), 2);
    assert_eq!(stash.len_items(), 6);
    assert_eq!(stash.get(Key(0)), None);
    assert_eq!(stash.get(Key(1)), Some((2, &22)));
    assert_eq!(stash.get(Key(2)), None);
    assert_eq!(stash.get(Key(3)), Some((4, &44)));
    assert_eq!(stash.put(1, 0), Key(0));
    assert_eq!(stash.put(1, 0), Key(2));
}
