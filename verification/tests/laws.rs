use hive::allocator::Global;
use hive::{BlockCapacityLimits, Handle, Hive, IncompatibleSplice, InvalidBlockCapacityLimits, Pool};

fn contents(h: &Hive<i32>) -> Vec<i32> {
    let mut out = Vec::new();
    let mut it = h.iter();
    while let Some(x) = it.next() {
        out.push(*x);
    }
    out
}

fn limited(min: u16, max: u16) -> Hive<i32> {
    Hive::try_new(BlockCapacityLimits::new(min, max)).unwrap()
}

#[test]
fn erased_slot_is_reused_by_next_insert() {
    let mut h = Hive::new();
    let _a = h.insert(10);
    let b = h.insert(20);
    let _c = h.insert(30);
    for i in 0..1000 {
        h.insert(i);
    }
    h.erase(b);
    let reused = h.insert(40);
    assert_eq!(reused, b);
    assert_eq!(h.get(b), Some(&40));
    assert_eq!(h.len(), 1003);
}

#[test]
fn insertion_keeps_other_handles_and_values() {
    let mut h = limited(4, 4);
    let handles: Vec<Handle> = (0..10).map(|i| h.insert(i)).collect();
    let extra = h.insert(99);
    for (i, &handle) in handles.iter().enumerate() {
        assert_eq!(h.get(handle), Some(&(i as i32)));
    }
    assert_eq!(h.get(extra), Some(&99));
    assert!(!handles.contains(&extra));
}

#[test]
fn erasure_removes_only_its_element() {
    let mut h = limited(4, 4);
    let handles: Vec<Handle> = (0..10).map(|i| h.insert(i)).collect();
    h.erase(handles[5]);
    assert_eq!(h.get(handles[5]), None);
    for (i, &handle) in handles.iter().enumerate() {
        if i != 5 {
            assert_eq!(h.get(handle), Some(&(i as i32)));
        }
    }
    assert_eq!(h.len(), 9);
}

#[test]
fn insert_then_erase_restores_contents() {
    let mut h = limited(4, 8);
    let handles: Vec<Handle> = (0..12).map(|i| h.insert(i)).collect();
    h.erase(handles[3]);
    h.erase(handles[7]);
    let before_values = contents(&h);
    let before_handles = h.handles_vec();
    let x = h.insert(500);
    h.erase(x);
    assert_eq!(contents(&h), before_values);
    assert_eq!(h.handles_vec(), before_handles);
}

#[test]
fn length_never_exceeds_capacity() {
    let mut h = limited(3, 5);
    for i in 0..40 {
        h.insert(i);
        assert!(h.len() <= h.capacity());
    }
    let handles = h.handles_vec();
    for (k, handle) in handles.into_iter().enumerate() {
        if k % 2 == 0 {
            h.erase(handle);
        }
        assert!(h.len() <= h.capacity());
    }
}

#[test]
fn growth_adds_a_block_sized_by_the_length() {
    let mut h = limited(4, 16);
    assert_eq!(h.capacity(), 0);
    let mut expected = Vec::new();
    for i in 0..40 {
        h.insert(i);
        expected.push(h.capacity());
    }
    assert_eq!(expected[0], 4);
    assert_eq!(expected[3], 4);
    assert_eq!(expected[4], 8);
    assert_eq!(expected[8], 16);
    assert_eq!(expected[16], 32);
    assert_eq!(expected[32], 48);
}

#[test]
fn reserve_adds_blocks_within_limits() {
    let mut a = limited(8, 8);
    a.reserve(20);
    assert_eq!(a.capacity(), 24);

    let mut b = limited(4, 16);
    b.reserve(20);
    assert_eq!(b.capacity(), 20);

    let mut c = limited(4, 16);
    c.reserve(3);
    assert_eq!(c.capacity(), 4);
    c.reserve(2);
    assert_eq!(c.capacity(), 4);
}

#[test]
fn reserve_keeps_elements() {
    let mut h = limited(4, 4);
    h.extend((0..6).collect());
    let handles = h.handles_vec();
    h.reserve(50);
    assert!(h.capacity() >= 56);
    assert_eq!(contents(&h), (0..6).collect::<Vec<_>>());
    assert_eq!(h.handles_vec(), handles);
}

#[test]
fn clear_keeps_capacity() {
    let mut h = limited(8, 8);
    for i in 0..20 {
        h.insert(i);
    }
    let cap = h.capacity();
    h.clear();
    assert!(h.is_empty());
    assert_eq!(h.capacity(), cap);
    for i in 0..20 {
        h.insert(i);
    }
    assert_eq!(h.capacity(), cap);
}

#[test]
fn trim_and_shrink_release_reserved_blocks() {
    let mut h = limited(8, 8);
    h.extend(vec![1, 2, 3]);
    assert_eq!(h.capacity(), 8);
    h.reserve(20);
    assert_eq!(h.capacity(), 24);
    h.trim_capacity();
    assert_eq!(h.capacity(), 8);

    let mut g = limited(8, 8);
    g.extend(vec![1, 2, 3]);
    g.reserve(20);
    let handles = g.handles_vec();
    g.shrink_to_fit();
    assert_eq!(g.capacity(), 8);
    assert_eq!(g.handles_vec(), handles);
    assert_eq!(contents(&g), vec![1, 2, 3]);
}

#[test]
fn trim_capacity_to_stops_at_target() {
    let mut h = limited(8, 8);
    h.extend(vec![1]);
    h.reserve(40);
    assert_eq!(h.capacity(), 48);
    h.trim_capacity_to(30);
    assert!(h.capacity() >= 30);
    assert!(h.capacity() < 38);
    assert_eq!(contents(&h), vec![1]);
}

#[test]
fn sort_permutes_values_under_fixed_handles() {
    let mut h = limited(4, 4);
    let input = [5, 3, 9, 1, 3, 7, 0, 2, 8];
    for v in input {
        h.insert(v);
    }
    h.erase(h.handles_vec()[2]);
    let handles = h.handles_vec();
    let mut expected = contents(&h);
    expected.sort();
    h.sort();
    assert_eq!(h.handles_vec(), handles);
    assert_eq!(contents(&h), expected);
}

#[test]
fn sort_by_is_stable() {
    let mut h: Hive<(i32, i32)> = Hive::new();
    for (k, v) in [(2, 0), (1, 1), (2, 2), (1, 3), (0, 4)] {
        h.insert((k, v));
    }
    h.sort_by(|a, b| a.0.cmp(&b.0));
    let mut out = Vec::new();
    let mut it = h.iter();
    while let Some(x) = it.next() {
        out.push(*x);
    }
    assert_eq!(out, vec![(0, 4), (1, 1), (1, 3), (2, 0), (2, 2)]);
}

#[test]
fn splice_concatenates_and_empties_source() {
    let mut a = limited(4, 4);
    a.extend(vec![1, 2, 3, 4, 5]);
    let mut b = limited(4, 4);
    b.extend(vec![6, 7, 8]);
    b.reserve(10);
    let b_total = b.capacity();
    let a_total = a.capacity();
    a.splice(&mut b).unwrap();
    assert_eq!(contents(&a), vec![1, 2, 3, 4, 5, 6, 7, 8]);
    assert!(b.is_empty());
    assert_eq!(b.capacity(), b_total - 4);
    assert_eq!(a.capacity(), a_total + 4);
}

#[test]
fn splice_of_empty_source_changes_nothing() {
    let mut a = limited(4, 4);
    a.extend(vec![1, 2]);
    let mut b = limited(8, 8);
    b.reserve(8);
    let (ca, cb) = (a.capacity(), b.capacity());
    assert_eq!(a.splice(&mut b), Ok(()));
    assert_eq!(contents(&a), vec![1, 2]);
    assert_eq!((a.capacity(), b.capacity()), (ca, cb));
}

#[test]
fn splice_error_for_blocks_outside_limits() {
    let mut a = limited(4, 4);
    let mut b = limited(8, 8);
    b.insert(1);
    assert_eq!(a.splice(&mut b), Err(IncompatibleSplice));
    assert!(a.is_empty());
    assert_eq!(contents(&b), vec![1]);
}

#[test]
fn invalid_limits_are_rejected() {
    assert_eq!(Hive::<i32>::try_new(BlockCapacityLimits::new(2, 16)).err(), Some(InvalidBlockCapacityLimits));
    assert_eq!(Hive::<i32>::try_new(BlockCapacityLimits::new(9, 8)).err(), Some(InvalidBlockCapacityLimits));
    assert!(Hive::<i32>::try_new(BlockCapacityLimits::new(3, 255)).is_ok());
    assert!(Hive::<i32>::try_new_in(Global, BlockCapacityLimits::new(3, 256)).is_err());
    let mut h = limited(4, 4);
    h.insert(1);
    assert_eq!(h.reshape(BlockCapacityLimits::new(0, 4)), Err(InvalidBlockCapacityLimits));
    assert_eq!(h.block_capacity_limits(), BlockCapacityLimits::new(4, 4));
    assert!(Pool::<i32>::try_new(BlockCapacityLimits::new(1, 1)).is_err());
}

#[test]
fn reshape_keeps_order_and_applies_limits() {
    let mut h = limited(4, 4);
    h.extend((0..10).collect());
    h.reshape(BlockCapacityLimits::new(8, 16)).unwrap();
    assert_eq!(contents(&h), (0..10).collect::<Vec<_>>());
    assert_eq!(h.capacity(), 10);
}

#[test]
fn retain_keeps_matching_elements_in_order() {
    let mut h = limited(4, 4);
    h.extend((0..15).collect());
    h.retain(|x| x % 3 != 0);
    assert_eq!(contents(&h), vec![1, 2, 4, 5, 7, 8, 10, 11, 13, 14]);
}

#[test]
fn unique_counts_dropped_duplicates() {
    let mut h = Hive::new();
    h.extend(vec![4, 4, 4, 4]);
    assert_eq!(h.unique(), 3);
    assert_eq!(contents(&h), vec![4]);
    let mut e: Hive<i32> = Hive::new();
    assert_eq!(e.unique(), 0);
}

#[test]
fn iteration_from_back_reverses_front() {
    let mut h = limited(3, 3);
    h.extend((0..10).collect());
    h.erase(h.handles_vec()[4]);
    let fwd = contents(&h);
    let mut back = Vec::new();
    let mut it = h.iter();
    while let Some(x) = it.next_back() {
        back.push(*x);
    }
    back.reverse();
    assert_eq!(fwd, back);
    assert_eq!(h.iter().len(), 9);
}

#[test]
fn into_iter_yields_all_in_order() {
    let mut h = limited(3, 3);
    h.extend((0..7).collect());
    let mut it = h.into_iter();
    assert_eq!(it.len(), 7);
    assert_eq!(it.next_back(), Some(6));
    let mut rest = Vec::new();
    while let Some(x) = it.next() {
        rest.push(x);
    }
    assert_eq!(rest, vec![0, 1, 2, 3, 4, 5]);
}

#[test]
fn iter_from_missing_handle_is_none() {
    let mut h = Hive::new();
    let a = h.insert(1);
    h.insert(2);
    h.erase(a);
    assert!(h.iter_from(a).is_none());
    assert!(h.iter_mut_from(a).is_none());
    assert!(h.get_mut(a).is_none());
}

#[test]
fn assign_replaces_everything() {
    let mut h = Hive::new();
    h.extend(vec![9, 9, 9, 9, 9]);
    h.assign(2, 1);
    assert_eq!(contents(&h), vec![1, 1]);
    h.assign_from_iter(Vec::new());
    assert!(h.is_empty());
}

#[test]
fn clone_copies_values_in_order() {
    let mut h = limited(4, 4);
    h.extend((0..9).collect());
    h.erase(h.handles_vec()[1]);
    let c = h.clone();
    assert_eq!(contents(&c), contents(&h));
    assert_eq!(c.block_capacity_limits(), h.block_capacity_limits());
}

#[test]
fn pool_tokens_own_their_objects() {
    let mut pool = Pool::new();
    let a = pool.insert(1);
    let b = pool.insert(2);
    *pool.get_mut(&a) = 10;
    assert_eq!(*pool.get(&a), 10);
    assert_eq!(*pool.get(&b), 2);
    pool.remove(a);
    assert_eq!(*pool.get(&b), 2);
    assert_eq!(pool.len(), 1);
    let c = pool.emplace(|| 3);
    assert_eq!(*pool.get(&c), 3);
    assert_eq!(pool.len(), 2);
}

#[test]
fn default_limits_lie_within_hard_limits() {
    let d = Hive::<[u64; 2]>::block_capacity_default_limits();
    let hard = Hive::<[u64; 2]>::block_capacity_hard_limits();
    assert!(hard.min <= d.min && d.min <= d.max && d.max <= hard.max);
    assert_eq!(hard.min, 3);
    assert_eq!(hard.max, u16::MAX);
    assert_eq!(d.max, 8192);
}

#[test]
fn max_size_is_usize_max_over_slot_size() {
    let h: Hive<u64> = Hive::new();
    assert_eq!(h.max_size(), usize::MAX / 8);
    let b: Hive<u8> = Hive::new();
    assert_eq!(b.max_size(), usize::MAX / 2);
}

#[test]
fn iter_mut_changes_values_in_place_from_both_ends() {
    let mut h = limited(3, 3);
    h.extend((0..7).collect());
    let handles = h.handles_vec();
    {
        let mut it = h.iter_mut();
        assert_eq!(it.len(), 7);
        *it.next().unwrap() += 100;
        *it.next_back().unwrap() += 200;
        *it.next_back().unwrap() += 300;
        assert_eq!(it.len(), 4);
    }
    assert_eq!(contents(&h), vec![100, 1, 2, 3, 4, 305, 206]);
    assert_eq!(h.handles_vec(), handles);
}

#[test]
fn trim_to_unreachable_target_frees_every_reserved_block() {
    let mut h = limited(8, 8);
    h.extend((0..8).collect());
    h.reserve(16);
    assert_eq!(h.capacity(), 24);
    let handles = h.handles_vec();
    h.trim_capacity_to(4);
    assert_eq!(h.capacity(), 8);
    assert_eq!(h.len(), 8);
    assert_eq!(h.handles_vec(), handles);
    assert_eq!(contents(&h), (0..8).collect::<Vec<i32>>());
}

#[test]
fn readme_erase_then_insert_reuses_the_slot() {
    let mut h = Hive::new();
    let a = h.insert(10);
    let b = h.insert(20);
    h.erase(b);
    let c = h.insert(30);
    assert_eq!(c, b);
    assert_eq!(h.get(b), Some(&30));
    assert_eq!(h.get(a), Some(&10));
}

#[test]
fn appending_shares_the_last_block_while_it_has_room() {
    let mut h = limited(4, 4);
    let a = h.insert(1);
    let b = h.insert(2);
    let c = h.insert(3);
    let d = h.insert(4);
    let e = h.insert(5);
    assert_eq!(a.group, b.group);
    assert_eq!(b.group, c.group);
    assert_eq!(c.group, d.group);
    assert_ne!(d.group, e.group);
    assert_eq!(contents(&h), vec![1, 2, 3, 4, 5]);
}

#[test]
fn emptied_block_takes_its_holes_along() {
    let mut h = limited(4, 4);
    let hs: Vec<Handle> = (0..8).map(|i| h.insert(i)).collect();
    h.erase(hs[1]);
    for i in 4..8 {
        h.erase(hs[i]);
    }
    assert_eq!(h.capacity(), 8);
    let n = h.insert(99);
    assert_eq!(n, hs[1]);
    assert_eq!(contents(&h), vec![0, 99, 2, 3]);
}

#[test]
fn splice_of_fresh_hives_keeps_handles() {
    let mut a = limited(8, 8);
    let mut b = limited(8, 8);
    let ha: Vec<Handle> = (0..6).map(|i| a.insert(i)).collect();
    let hb: Vec<Handle> = (10..16).map(|i| b.insert(i)).collect();
    assert!(!a.ids_clash(&b));
    assert_eq!(a.splice(&mut b), Ok(()));
    assert!(b.is_empty());
    assert_eq!(contents(&a), vec![0, 1, 2, 3, 4, 5, 10, 11, 12, 13, 14, 15]);
    for (i, h) in ha.iter().enumerate() {
        assert_eq!(a.get(*h), Some(&(i as i32)));
    }
    for (i, h) in hb.iter().enumerate() {
        assert_eq!(a.get(*h), Some(&(10 + i as i32)));
    }
}

#[test]
fn shrink_to_fit_returns_to_the_live_blocks() {
    let mut h = limited(8, 32);
    let hs: Vec<Handle> = (0..40).map(|i| h.insert(i)).collect();
    let live = h.capacity();
    h.reserve(100);
    assert!(h.capacity() > live);
    h.shrink_to_fit();
    assert_eq!(h.capacity(), live);
    for (i, x) in hs.iter().enumerate() {
        assert_eq!(h.get(*x), Some(&(i as i32)));
    }
}

#[test]
fn room_to_insert_reports_a_fresh_pool_and_hive() {
    let pool: Pool<i32> = Pool::new();
    assert!(pool.room_to_insert());
    let h: Hive<i32> = Hive::new();
    assert!(h.room_to_insert());
}

#[test]
fn wide_elements_index_slots_with_two_bytes() {
    assert_eq!(Hive::<u64>::block_capacity_hard_limits().max, u16::MAX);
    assert_eq!(Hive::<u32>::block_capacity_hard_limits().max, 255);
    assert_eq!(Hive::<u16>::block_capacity_hard_limits().max, 255);
}

#[test]
fn refilled_hole_keeps_its_place_in_iteration_order() {
    let mut h = limited(4, 4);
    let hs: Vec<Handle> = (0..8).map(|i| h.insert(i)).collect();
    h.erase(hs[5]);
    assert_eq!(contents(&h), vec![0, 1, 2, 3, 4, 6, 7]);
    let n = h.insert(99);
    assert_eq!(n, hs[5]);
    assert_eq!(contents(&h), vec![0, 1, 2, 3, 4, 99, 6, 7]);
}

#[test]
fn capacity_counts_live_and_reserved_blocks() {
    let mut h = limited(4, 4);
    let hs: Vec<Handle> = (0..8).map(|i| h.insert(i)).collect();
    assert_eq!(h.capacity(), 8);
    for x in &hs[4..8] {
        h.erase(*x);
    }
    assert_eq!(h.capacity(), 8);
    h.reserve(8);
    assert_eq!(h.capacity(), 12);
    h.trim_capacity();
    assert_eq!(h.capacity(), 4);
}
