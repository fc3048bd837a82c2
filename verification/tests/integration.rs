use hive::allocator::Global;
use hive::{BlockCapacityLimits, Handle, Hive, IncompatibleSplice, Pool};
use std::cell::Cell;
use std::collections::HashSet;
use std::rc::Rc;

fn values<T: Copy>(h: &Hive<T>) -> Vec<T> {
    let mut out = Vec::new();
    let mut it = h.iter();
    while let Some(x) = it.next() {
        out.push(*x);
    }
    out
}

fn values_rev<T: Copy>(h: &Hive<T>) -> Vec<T> {
    let mut out = Vec::new();
    let mut it = h.iter();
    while let Some(x) = it.next_back() {
        out.push(*x);
    }
    out
}

fn sorted_values(h: &Hive<i32>) -> Vec<i32> {
    let mut v = values(h);
    v.sort();
    v
}

#[test]
fn test_new_empty() {
    let h: Hive<i32> = Hive::new();
    assert!(h.is_empty());
    assert_eq!(h.len(), 0);
}

#[test]
fn test_insert_one() {
    let mut h = Hive::new();
    h.insert(42);
    assert!(!h.is_empty());
    assert_eq!(h.len(), 1);
}

#[test]
fn test_emplace() {
    let mut h = Hive::new();
    let handle = h.emplace(|| String::from("hello"));

    assert_eq!(h.len(), 1);
    assert_eq!(h.get(handle).unwrap(), "hello");
}

#[test]
fn test_emplace_mut() {
    let mut h = Hive::new();
    let handle = h.emplace_mut(|| 41);

    *h.get_mut(handle).unwrap() += 1;

    assert_eq!(h.iter().next(), Some(&42));
}

#[test]
fn test_insert_with_default_initialized_slot() {
    let mut h = Hive::new();
    let handle = h.insert_with(|value: &mut String| {
        value.push_str("built in place");
    });

    assert_eq!(h.len(), 1);
    assert_eq!(h.get(handle).unwrap(), "built in place");
}

#[test]
fn test_insert_with_mut_default_initialized_slot() {
    let mut h = Hive::new();
    let handle = h.insert_with_mut(|value: &mut Vec<i32>| {
        value.extend([1, 2, 3]);
    });

    h.get_mut(handle).unwrap().push(4);

    assert_eq!(h.iter().next().unwrap(), &vec![1, 2, 3, 4]);
}

#[test]
fn test_iter_single() {
    let mut h = Hive::new();
    h.insert(42);
    assert_eq!(h.iter().next(), Some(&42));
}

#[test]
fn test_iter_multiple() {
    let mut h = Hive::new();
    for i in 0..100 {
        h.insert(i);
    }
    let sum: i32 = values(&h).iter().sum();
    assert_eq!(sum, 4950);
}

#[test]
fn test_double_ended_iter() {
    let mut h = Hive::new();
    for i in 0..10 {
        h.insert(i);
    }
    let fwd: Vec<i32> = values(&h);
    assert_eq!(fwd, vec![0, 1, 2, 3, 4, 5, 6, 7, 8, 9]);

    let rev: Vec<i32> = values_rev(&h);
    assert_eq!(rev, vec![9, 8, 7, 6, 5, 4, 3, 2, 1, 0]);

    let mut it = h.iter();
    assert_eq!(it.next(), Some(&0));
    assert_eq!(it.next_back(), Some(&9));
    assert_eq!(it.next(), Some(&1));
    assert_eq!(it.next_back(), Some(&8));
    assert_eq!(it.next(), Some(&2));
    assert_eq!(it.next_back(), Some(&7));
}

#[test]
fn test_next_back_single_element() {
    let mut h = Hive::new();
    h.insert(42);
    assert_eq!(h.iter().next_back(), Some(&42));
}

#[test]
fn test_erase_basic() {
    let mut h = Hive::new();
    let r0 = h.insert(42);
    let _r1 = h.insert(99);
    assert_eq!(h.len(), 2);

    h.erase(r0);
    assert_eq!(h.len(), 1);

    assert_eq!(values(&h), vec![99]);
}

#[test]
fn test_erase_from_middle() {
    let mut h = Hive::new();
    h.insert(1);
    let r2 = h.insert(2);
    h.insert(3);

    h.erase(r2);

    assert_eq!(sorted_values(&h), vec![1, 3]);
}

#[test]
fn test_insert_after_erase() {
    let mut h = Hive::new();
    h.insert(1);
    let r2 = h.insert(2);
    h.insert(3);

    h.erase(r2);
    h.insert(4);

    assert_eq!(h.len(), 3);
    assert_eq!(sorted_values(&h), vec![1, 3, 4]);
}

#[test]
fn test_erase_all_one_by_one() {
    let mut h = Hive::new();
    let refs: Vec<Handle> = (0..100).map(|i| h.insert(i)).collect();

    for r in &refs {
        h.erase(*r);
    }
    assert!(h.is_empty());
}

#[test]
fn test_insert_after_empty_reuses_reserved_capacity() {
    let mut h = Hive::new();
    let handle = h.insert(1);
    let cap = h.capacity();
    h.erase(handle);
    assert_eq!(h.len(), 0);
    h.insert(2);
    assert_eq!(h.capacity(), cap);
    assert_eq!(h.iter().next(), Some(&2));
}

#[test]
fn test_clear() {
    let mut h = Hive::new();
    for i in 0..50 {
        h.insert(i);
    }
    h.clear();
    assert!(h.is_empty());
    h.insert(42);
    assert_eq!(h.len(), 1);
}

#[test]
fn test_reserve() {
    let mut h: Hive<i32> = Hive::new();
    h.reserve(100);
    assert!(h.capacity() >= 100);
    for i in 0..100 {
        h.insert(i);
    }
    assert_eq!(h.len(), 100);
}

#[test]
fn test_with_capacity() {
    let mut h: Hive<i32> = Hive::with_capacity(200);
    assert!(h.capacity() >= 200);
    for i in 0..200 {
        h.insert(i);
    }
    assert_eq!(h.len(), 200);
}

#[test]
fn test_block_capacity_limit_apis() {
    let defaults = Hive::<i32>::block_capacity_default_limits();
    assert!(defaults.min >= 8);
    assert!(defaults.min <= defaults.max);
    assert_eq!(defaults.max, 255);
    assert_eq!(Hive::<i32>::block_capacity_hard_limits().min, 3);
    assert_eq!(Hive::<i32>::block_capacity_hard_limits().max, 255);

    let h = Hive::<i32>::try_new(BlockCapacityLimits::new(4, 16)).unwrap();
    assert_eq!(h.block_capacity_limits(), BlockCapacityLimits::new(4, 16));

    assert!(Hive::<i32>::try_new(BlockCapacityLimits::new(2, 16)).is_err());
    assert!(Hive::<i32>::try_new(BlockCapacityLimits::new(16, 4)).is_err());
    assert!(Hive::<i32>::try_new(BlockCapacityLimits::new(4, 256)).is_err());

    assert_eq!(Hive::<[u8; 16]>::block_capacity_hard_limits().max, u16::MAX);
    assert_eq!(Hive::<[u8; 16]>::block_capacity_default_limits().max, 8192);
    assert!(Hive::<[u8; 16]>::try_new(BlockCapacityLimits::new(4, 8192)).is_ok());
}

#[test]
fn test_max_size_and_allocator_access() {
    let h: Hive<i32> = Hive::new();
    assert!(h.max_size() > 0);
    let _ = h.get_allocator();
}

#[test]
fn test_reshape_updates_limits_and_preserves_values() {
    let mut h = Hive::<i32>::try_new(BlockCapacityLimits::new(4, 16)).unwrap();
    for i in 0..40 {
        h.insert(i);
    }

    h.reshape(BlockCapacityLimits::new(8, 32)).unwrap();
    assert_eq!(h.block_capacity_limits(), BlockCapacityLimits::new(8, 32));
    assert_eq!(h.len(), 40);

    assert_eq!(sorted_values(&h), (0..40).collect::<Vec<_>>());
}

#[test]
fn test_reshape_rejects_invalid_limits() {
    let mut h = Hive::<i32>::new();
    assert!(h.reshape(BlockCapacityLimits::new(1, 8)).is_err());
    assert_eq!(h.block_capacity_limits(), Hive::<i32>::block_capacity_default_limits());
}

#[test]
fn test_large_reserve_uses_max_capacity_blocks() {
    let mut h: Hive<i32> = Hive::new();
    h.reserve(70_000);
    assert!(h.capacity() >= 70_000);
    assert!(h.capacity() < 80_000);
}

#[test]
fn test_clone() {
    let mut h = Hive::new();
    for i in 0..50 {
        h.insert(i);
    }
    let h2 = h.clone();
    assert_eq!(h.len(), h2.len());
    let v1 = sorted_values(&h);
    let v2 = sorted_values(&h2);
    assert_eq!(v1, v2);
}

#[test]
fn test_from_iterator() {
    let h: Hive<i32> = Hive::from_iter((0..10).collect());
    assert_eq!(h.len(), 10);
    assert_eq!(sorted_values(&h), (0..10).collect::<Vec<_>>());
}

#[test]
fn test_extend() {
    let mut h = Hive::new();
    h.extend((0..5).collect());
    assert_eq!(h.len(), 5);
}

#[test]
fn test_retain_even() {
    let mut h = Hive::new();
    for i in 0..20 {
        h.insert(i);
    }
    h.retain(|x| x % 2 == 0);
    assert_eq!(h.len(), 10);
    for v in values(&h) {
        assert_eq!(v % 2, 0);
    }
}

#[test]
fn test_retain_all() {
    let mut h = Hive::new();
    for i in 0..10 {
        h.insert(i);
    }
    h.retain(|_| true);
    assert_eq!(h.len(), 10);
}

#[test]
fn test_retain_none() {
    let mut h = Hive::new();
    for i in 0..10 {
        h.insert(i);
    }
    h.retain(|_| false);
    assert!(h.is_empty());
}

#[test]
fn test_sort() {
    let mut h = Hive::new();
    for i in (0..100).rev() {
        h.insert(i);
    }
    h.sort();
    let vals = values(&h);
    for w in vals.windows(2) {
        assert!(w[0] <= w[1]);
    }
}

#[test]
fn test_sort_preserves_element_locations() {
    let mut h = Hive::new();
    let p1 = h.insert(3);
    let p2 = h.insert(1);
    let p3 = h.insert(2);
    let handles = [p1, p2, p3];

    h.sort();

    for handle in handles {
        assert!(h.get(handle).is_some());
    }
    assert_eq!(values(&h), vec![1, 2, 3]);
}

#[test]
fn test_sort_by_desc() {
    let mut h = Hive::new();
    for i in 0..100 {
        h.insert(i);
    }
    h.sort_by(|a, b| b.cmp(a));
    let vals = values(&h);
    for w in vals.windows(2) {
        assert!(w[0] >= w[1]);
    }
}

#[test]
fn test_stable_references() {
    let mut h = Hive::new();
    let r1 = h.insert(10);
    let r2 = h.insert(20);
    let r3 = h.insert(30);

    for i in 0..1000 {
        h.insert(i);
    }

    assert_eq!(*h.get(r1).unwrap(), 10);
    assert_eq!(*h.get(r2).unwrap(), 20);
    assert_eq!(*h.get(r3).unwrap(), 30);
}

#[test]
fn test_iter_mut() {
    let mut h = Hive::new();
    for i in 0..10 {
        h.insert(i);
    }
    {
        let mut it = h.iter_mut();
        while let Some(val) = it.next() {
            *val *= 2;
        }
    }
    assert_eq!(sorted_values(&h), vec![0, 2, 4, 6, 8, 10, 12, 14, 16, 18]);
}

#[test]
fn test_into_iter() {
    let mut h = Hive::new();
    for i in 0..50 {
        h.insert(i);
    }
    let mut vals: Vec<i32> = Vec::new();
    let mut it = h.into_iter();
    while let Some(v) = it.next() {
        vals.push(v);
    }
    assert_eq!(vals.len(), 50);
}

struct DropCounter(Rc<Cell<usize>>);

impl Drop for DropCounter {
    fn drop(&mut self) {
        self.0.set(self.0.get() + 1);
    }
}

#[test]
fn test_into_iter_drops_remaining_elements() {
    let drops = Rc::new(Cell::new(0));
    {
        let mut h = Hive::new();
        for _ in 0..10 {
            h.insert(DropCounter(drops.clone()));
        }
        let mut iter = h.into_iter();
        let _ = iter.next();
    }
    assert_eq!(drops.get(), 10);
}

#[test]
fn test_exact_size() {
    let mut h = Hive::new();
    for i in 0..30 {
        h.insert(i);
    }
    assert_eq!(h.iter().len(), 30);
}

#[test]
fn test_drop_non_trivial() {
    let drops = Rc::new(Cell::new(0));
    {
        let mut h: Hive<DropCounter> = Hive::new();
        for _ in 0..100 {
            h.insert(DropCounter(drops.clone()));
        }
    }
    assert_eq!(drops.get(), 100);
}

#[test]
fn test_stress_insert_erase() {
    for _ in 0..10 {
        let mut h = Hive::new();
        let mut refs = Vec::new();

        for i in 0..2000 {
            let r = h.insert(i);
            refs.push(r);
        }

        for r in &refs {
            h.erase(*r);
        }
        assert!(h.is_empty());
    }
}

#[test]
fn test_alternating_erase() {
    let mut h = Hive::new();
    let refs: Vec<Handle> = (0..500).map(|i| h.insert(i)).collect();

    for i in (0..500).step_by(2) {
        h.erase(refs[i]);
    }

    assert_eq!(h.len(), 250);
    let expected: Vec<i32> = (1..500).step_by(2).collect();
    assert_eq!(sorted_values(&h), expected);
}

#[test]
fn test_erase_and_reinsert_reuse() {
    let mut h = Hive::new();
    let refs: Vec<Handle> = (0..200).map(|i| h.insert(i)).collect();

    for i in (0..200).step_by(3) {
        h.erase(refs[i]);
    }

    for i in 1000..1100 {
        h.insert(i);
    }

    let vals: HashSet<i32> = values(&h).into_iter().collect();
    for i in 0..200 {
        if i % 3 != 0 {
            assert!(vals.contains(&i), "missing {i}");
        }
    }
    for i in 1000..1100 {
        assert!(vals.contains(&i), "missing {i}");
    }
}

#[test]
fn test_reinsert_inside_merged_skipblock() {
    let mut h = Hive::new();
    let refs: Vec<Handle> = (0..8).map(|i| h.insert(i)).collect();

    h.erase(refs[2]);
    h.erase(refs[4]);
    h.erase(refs[3]);

    h.insert(100);
    h.insert(101);

    assert_eq!(sorted_values(&h), vec![0, 1, 5, 6, 7, 100, 101]);
}

#[test]
fn test_small_type_u8() {
    let mut h = Hive::new();
    for i in 0u8..100 {
        h.insert(i);
    }
    assert_eq!(h.len(), 100);
    let mut vals: Vec<u8> = values(&h);
    vals.sort();
    assert_eq!(vals, (0u8..100).collect::<Vec<_>>());
}

#[test]
fn test_small_type_reuse_near_u8_capacity_limit() {
    let mut h = Hive::try_new(BlockCapacityLimits::new(255, 255)).unwrap();
    let refs: Vec<Handle> = (0..255).map(|i| h.insert(i as u8)).collect();

    for idx in 100..255 {
        h.erase(refs[idx]);
    }

    let reused: Vec<Handle> = (0..155).map(|i| h.insert(i as u8)).collect();

    assert_eq!(reused.first().copied(), Some(refs[100]));
    assert_eq!(reused.last().copied(), Some(refs[254]));
    assert_eq!(h.len(), 255);
}

#[test]
fn test_rev_iter() {
    let mut h = Hive::new();
    for i in 0..5 {
        h.insert(i);
    }
    assert_eq!(values_rev(&h), vec![4, 3, 2, 1, 0]);
}

#[test]
fn test_nth() {
    let mut h = Hive::new();
    for i in 0..100 {
        h.insert(i);
    }
    let vals = values(&h);
    assert_eq!(vals.get(50).copied(), Some(50));
    assert_eq!(vals.get(99).copied(), Some(99));
    assert_eq!(vals.get(100).copied(), None);
}

#[test]
fn test_fused() {
    let mut h = Hive::new();
    h.insert(1);
    let mut it = h.iter();
    assert_eq!(it.next(), Some(&1));
    for _ in 0..5 {
        assert_eq!(it.next(), None);
    }
}

#[test]
fn test_last() {
    let mut h = Hive::new();
    h.insert(1);
    h.insert(2);
    h.insert(3);
    assert_eq!(h.iter().next_back(), Some(&3));
}

#[test]
fn test_default() {
    let h: Hive<i32> = Default::default();
    assert!(h.is_empty());
}

#[test]
fn test_trim_capacity() {
    let mut h: Hive<i32> = Hive::new();
    h.reserve(500);
    let cap_before = h.capacity();
    h.trim_capacity();
    assert!(h.capacity() <= cap_before);
}

#[test]
fn test_trim_capacity_to() {
    let mut h: Hive<i32> = Hive::new();
    h.reserve(500);
    let cap_before = h.capacity();
    h.trim_capacity_to(100);
    assert!(h.capacity() <= cap_before);
    assert!(h.capacity() >= 100 || h.capacity() == 0);
}

#[test]
fn test_get_and_iter_from_pointer() {
    let mut h = Hive::new();
    let p1 = h.insert(1);
    let p2 = h.insert(2);
    h.insert(3);

    assert_eq!(h.get(p2), Some(&2));
    let mut from = Vec::new();
    let mut it = h.iter_from(p2).unwrap();
    while let Some(v) = it.next() {
        from.push(*v);
    }
    assert_eq!(from, vec![2, 3]);

    h.erase(p1);
    assert_eq!(h.get(p1), None);
}

#[test]
fn test_get_mut_and_iter_mut_from_pointer() {
    let mut h = Hive::new();
    h.insert(1);
    let p2 = h.insert(2);
    h.insert(3);

    *h.get_mut(p2).unwrap() = 20;
    {
        let mut it = h.iter_mut_from(p2).unwrap();
        while let Some(value) = it.next() {
            *value += 1;
        }
    }

    assert_eq!(values(&h), vec![1, 21, 4]);
}

#[test]
fn test_assign_and_assign_from_iter() {
    let mut h = Hive::new();
    h.extend((0..10).collect());
    h.assign(3, 7);
    assert_eq!(values(&h), vec![7, 7, 7]);

    h.assign_from_iter(vec![1, 2, 3, 4]);
    assert_eq!(values(&h), vec![1, 2, 3, 4]);
}

#[test]
fn test_insert_many() {
    let mut h = Hive::new();
    h.insert(1);
    h.insert_many(vec![2, 3, 4]);
    assert_eq!(values(&h), vec![1, 2, 3, 4]);
}

#[test]
fn test_unique() {
    let mut h = Hive::new();
    h.extend(vec![1, 1, 2, 2, 2, 3, 1, 1]);
    assert_eq!(h.unique(), 4);
    assert_eq!(values(&h), vec![1, 2, 3, 1]);
}

#[test]
fn test_unique_by() {
    let mut h = Hive::new();
    h.extend(vec![1, 3, 4, 6, 7]);
    assert_eq!(h.unique_by(|a, b| a % 2 == b % 2), 2);
    assert_eq!(values(&h), vec![1, 4, 7]);
}

#[test]
fn test_pool_insert_returns_mutable_guard() {
    let mut pool = Pool::new();
    let value = pool.insert(41);

    *pool.get_mut(&value) += 1;

    assert_eq!(*pool.get(&value), 42);
    assert_eq!(pool.len(), 1);
    assert!(!pool.is_empty());
}

#[test]
fn test_pool_emplace_returns_mutable_guard() {
    let mut pool = Pool::new();
    let value = pool.emplace(|| String::from("hello"));

    pool.get_mut(&value).push_str(" pool");

    assert_eq!(pool.get(&value), "hello pool");
    assert_eq!(pool.len(), 1);
}

#[test]
fn test_pool_insert_with_default_initialized_slot() {
    let mut pool = Pool::new();
    let value = pool.insert_with(|value: &mut String| {
        value.push_str("pool value");
    });

    assert_eq!(pool.get(&value), "pool value");
    assert_eq!(pool.len(), 1);
}

#[test]
fn test_pool_allows_multiple_live_guards_and_insertions() {
    let mut pool = Pool::new();
    let first = pool.insert(String::from("first"));
    let second = pool.insert(String::from("second"));

    pool.get_mut(&first).push_str(" value");
    pool.get_mut(&second).push_str(" value");
    let third = pool.insert(String::from("third"));

    assert_eq!(pool.get(&first), "first value");
    assert_eq!(pool.get(&second), "second value");
    assert_eq!(pool.get(&third), "third");
    assert_eq!(pool.len(), 3);
}

#[test]
fn test_pool_guard_erases_on_drop() {
    let mut pool = Pool::new();
    let first = pool.insert(1);
    let second = pool.insert(2);
    assert_eq!(pool.len(), 2);

    pool.remove(first);
    assert_eq!(pool.len(), 1);

    pool.remove(second);
    assert!(pool.is_empty());
}

#[test]
fn test_pool_reuses_erased_slot() {
    let mut pool = Pool::with_capacity(1);
    let first = pool.insert(1);
    let first_key = first.key();

    pool.remove(first);
    let second = pool.insert(2);
    let second_key = second.key();

    assert_eq!(*pool.get(&second), 2);
    assert_eq!(first_key, second_key);
    assert_eq!(pool.len(), 1);
}

#[test]
fn test_pool_new_in_uses_allocator() {
    let mut pool = Pool::<i32, Global>::new_in(Global);
    let value = pool.insert(7);

    assert_eq!(*pool.get(&value), 7);
    assert_eq!(pool.len(), 1);
}

#[test]
fn test_pool_with_capacity_in_uses_allocator() {
    let pool = Pool::<i32, Global>::with_capacity_in(10, Global);

    assert!(pool.capacity() >= 10);
}

#[test]
fn test_pool_try_new_in_validates_limits() {
    let mut pool = Pool::<i32, Global>::try_new_in(Global, BlockCapacityLimits::new(4, 16)).unwrap();
    let value = pool.insert(11);

    assert_eq!(*pool.get(&value), 11);
    assert!(Pool::<i32, Global>::try_new_in(Global, BlockCapacityLimits::new(2, 16)).is_err());
}

#[test]
fn test_pool_drops_elements_exactly_once() {
    let drops = Rc::new(Cell::new(0));
    let mut pool = Pool::new();
    let first = pool.insert(DropCounter(drops.clone()));
    let second = pool.insert(DropCounter(drops.clone()));

    pool.remove(first);
    assert_eq!(drops.get(), 1);

    pool.remove(second);
    assert_eq!(drops.get(), 2);

    drop(pool);
    assert_eq!(drops.get(), 2);
}

#[test]
fn test_pool_drop_drops_remaining_elements() {
    let drops = Rc::new(Cell::new(0));
    let mut pool = Pool::new();
    let first = pool.insert(DropCounter(drops.clone()));
    let second = pool.insert(DropCounter(drops.clone()));

    pool.remove(first);
    assert_eq!(drops.get(), 1);

    std::mem::forget(second);
    drop(pool);
    assert_eq!(drops.get(), 2);
}

#[test]
fn test_splice_moves_source_elements() {
    let mut a = Hive::new();
    a.extend(vec![1, 2]);
    let mut b = Hive::new();
    b.extend(vec![3, 4]);

    a.splice(&mut b).unwrap();

    assert!(b.is_empty());
    assert_eq!(values(&a), vec![1, 2, 3, 4]);
}

#[test]
fn test_splice_preserves_element_pointers() {
    let mut a = Hive::try_new(BlockCapacityLimits::new(8, 8)).unwrap();
    let a_handles: Vec<Handle> = (0..6).map(|i| a.insert(i)).collect();
    let mut b = Hive::try_new(BlockCapacityLimits::new(8, 8)).unwrap();
    let b_handles: Vec<Handle> = (10..16).map(|i| b.insert(i)).collect();

    a.splice(&mut b).unwrap();

    assert!(b.is_empty());
    assert_eq!(values(&a), vec![0, 1, 2, 3, 4, 5, 10, 11, 12, 13, 14, 15]);
    for (i, &handle) in a_handles.iter().enumerate() {
        assert_eq!(a.get(handle), Some(&(i as i32)));
    }
    for (i, &handle) in b_handles.iter().enumerate() {
        assert_eq!(a.get(handle), Some(&(10 + i as i32)));
    }
}

#[test]
fn test_splice_into_empty_preserves_source_pointers_and_reserved_capacity() {
    let mut a = Hive::try_new(BlockCapacityLimits::new(8, 8)).unwrap();
    a.reserve(16);
    let reserved_capacity = a.capacity();

    let mut b = Hive::try_new(BlockCapacityLimits::new(8, 8)).unwrap();
    let b_handles: Vec<Handle> = (0..10).map(|i| b.insert(i)).collect();

    a.splice(&mut b).unwrap();

    assert!(b.is_empty());
    assert_eq!(a.capacity(), reserved_capacity - 8 + 16);
    assert_eq!(values(&a), (0..10).collect::<Vec<_>>());
    for (i, &handle) in b_handles.iter().enumerate() {
        assert_eq!(a.get(handle), Some(&(i as i32)));
    }
}

#[test]
fn test_splice_reuses_old_destination_tail_gap() {
    let mut a = Hive::try_new(BlockCapacityLimits::new(8, 8)).unwrap();
    let a_handles: Vec<Handle> = (0..5).map(|i| a.insert(i)).collect();
    let mut b = Hive::try_new(BlockCapacityLimits::new(8, 8)).unwrap();
    b.extend((10..14).collect());

    a.splice(&mut b).unwrap();

    let p = a.insert(99);
    assert_eq!(p, Handle { group: a_handles[0].group, index: a_handles[0].index + 5 });
    assert_eq!(a.get(p), Some(&99));
}

#[test]
fn test_splice_preserves_source_erased_slot_reuse() {
    let mut a = Hive::try_new(BlockCapacityLimits::new(8, 8)).unwrap();
    a.extend((0..4).collect());

    let mut b = Hive::try_new(BlockCapacityLimits::new(8, 8)).unwrap();
    let b_handles: Vec<Handle> = (10..18).map(|i| b.insert(i)).collect();
    b.erase(b_handles[2]);

    a.splice(&mut b).unwrap();

    for i in 0..4 {
        a.insert(90 + i);
    }
    let reused = a.insert(99);

    assert_eq!(reused, b_handles[2]);
    assert_eq!(a.get(reused), Some(&99));
}

#[test]
fn test_splice_incompatible_limits_leaves_both_hives_unchanged() {
    let mut a = Hive::try_new(BlockCapacityLimits::new(16, 16)).unwrap();
    a.extend((0..4).collect());
    let mut b = Hive::try_new(BlockCapacityLimits::new(8, 8)).unwrap();
    let b_handles: Vec<Handle> = (10..18).map(|i| b.insert(i)).collect();

    assert_eq!(a.splice(&mut b), Err(IncompatibleSplice));

    assert_eq!(values(&a), vec![0, 1, 2, 3]);
    assert_eq!(values(&b), vec![10, 11, 12, 13, 14, 15, 16, 17]);
    for (i, &handle) in b_handles.iter().enumerate() {
        assert_eq!(b.get(handle), Some(&(10 + i as i32)));
    }
}

#[test]
fn test_shrink_to_fit_reduces_capacity() {
    let mut h = Hive::new();
    h.reserve(500);
    for i in 0..10 {
        h.insert(i);
    }
    let before = h.capacity();
    h.shrink_to_fit();
    assert!(h.capacity() < before);
    assert_eq!(h.len(), 10);
    assert_eq!(sorted_values(&h), (0..10).collect::<Vec<_>>());
}

#[test]
fn test_shrink_to_fit_trims_reserved_without_moving_live_elements() {
    let mut h = Hive::try_new(BlockCapacityLimits::new(8, 32)).unwrap();
    let handles: Vec<Handle> = (0..40).map(|i| h.insert(i)).collect();
    let live_capacity = h.capacity();
    h.reserve(100);
    assert!(h.capacity() > live_capacity);

    h.shrink_to_fit();

    assert_eq!(h.capacity(), live_capacity);
    for (i, &handle) in handles.iter().enumerate() {
        assert_eq!(h.get(handle), Some(&(i as i32)));
    }
}

#[test]
fn test_erase_and_iterate() {
    let mut h = Hive::new();
    let refs: Vec<Handle> = (0..100).map(|i| h.insert(i)).collect();

    for i in (0..100).step_by(3) {
        h.erase(refs[i]);
    }

    assert_eq!(h.len(), 66);
}

#[test]
fn test_concurrent_erase_insert() {
    let mut h = Hive::new();
    let refs: Vec<Handle> = (0..500).map(|i| h.insert(i)).collect();

    for i in (0..500).step_by(2) {
        h.erase(refs[i]);
    }

    for i in 0..250 {
        h.insert(1000 + i);
    }

    assert_eq!(h.len(), 500);
    let vals: HashSet<i32> = values(&h).into_iter().collect();
    for i in 0..500 {
        if i % 2 == 1 {
            assert!(vals.contains(&i));
        }
    }
    for i in 0..250 {
        assert!(vals.contains(&(1000 + i)));
    }
}

#[test]
fn test_count_consuming() {
    let mut h = Hive::new();
    for i in 0..50 {
        h.insert(i);
    }
    assert_eq!(values(&h).len(), 50);
    assert_eq!(h.len(), 50);
}

#[test]
fn test_erase_pointer_from_iter_mut() {
    let mut h = Hive::new();
    h.insert(1);
    h.insert(2);
    h.insert(3);

    let mut target = None;
    for handle in h.handles_vec() {
        if *h.get(handle).unwrap() == 2 {
            target = Some(handle);
        }
    }
    h.erase(target.expect("element 2 should exist"));
    assert_eq!(h.len(), 2);
    assert_eq!(sorted_values(&h), vec![1, 3]);
}

fn erase_then_reinsert(erase_order: &[usize]) -> (Vec<Handle>, [Handle; 3]) {
    let mut h = Hive::try_new(BlockCapacityLimits::new(8, 8)).unwrap();
    let refs: Vec<Handle> = (0..8).map(|i| h.insert(i)).collect();
    for &idx in erase_order {
        h.erase(refs[idx]);
    }
    let a = h.insert(100);
    let b = h.insert(101);
    let c = h.insert(102);
    (refs, [a, b, c])
}

#[test]
fn test_reuse_skipblock_from_front_in_order() {
    let mut h = Hive::try_new(BlockCapacityLimits::new(8, 8)).unwrap();
    let refs: Vec<Handle> = (0..8).map(|i| h.insert(i)).collect();

    for &idx in &[2usize, 3, 4] {
        h.erase(refs[idx]);
    }

    let a = h.insert(100);
    let b = h.insert(101);
    let c = h.insert(102);

    assert_eq!([a, b, c], [refs[2], refs[3], refs[4]]);
    assert_eq!(sorted_values(&h), vec![0, 1, 5, 6, 7, 100, 101, 102]);
}

#[test]
fn test_reuse_after_moving_following_skipblock_head_forward() {
    let (refs, got) = erase_then_reinsert(&[3, 4, 2]);
    assert_eq!(got, [refs[2], refs[3], refs[4]]);
}

#[test]
fn test_reuse_after_extending_previous_skipblock() {
    let (refs, got) = erase_then_reinsert(&[2, 3, 4]);
    assert_eq!(got, [refs[2], refs[3], refs[4]]);
}

#[test]
fn test_reuse_after_merging_two_skipblocks() {
    let (refs, got) = erase_then_reinsert(&[2, 4, 3]);
    assert_eq!(got, [refs[2], refs[3], refs[4]]);
}

#[test]
fn test_reuse_pointer_set_after_fragmented_erases() {
    let mut h = Hive::try_new(BlockCapacityLimits::new(16, 16)).unwrap();
    let refs: Vec<Handle> = (0..16).map(|i| h.insert(i)).collect();
    let erased = [1usize, 2, 5, 8, 9, 10, 14];

    for &idx in &erased {
        h.erase(refs[idx]);
    }

    let mut reused: Vec<Handle> = (0..erased.len()).map(|i| h.insert(100 + i as i32)).collect();
    let mut expected: Vec<Handle> = erased.iter().map(|&idx| refs[idx]).collect();
    reused.sort();
    expected.sort();

    assert_eq!(reused, expected);
}
