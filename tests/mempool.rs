use bc4py_extension::mempool::{MemoryPool, PoolError, TxHash, Unconfirmed};

fn h(n: u64) -> TxHash {
    TxHash::new(0, 0, 0, n)
}

fn push(
    pool: &mut MemoryPool<u32>,
    id: u64,
    depends: Vec<u64>,
    price: u32,
    time: u32,
) -> Result<usize, PoolError> {
    let deps: Vec<TxHash> = depends.into_iter().map(h).collect();
    pool.push(id as u32, h(id), deps, price, time, 100, 10)
}

fn order(pool: &MemoryPool<u32>) -> Vec<u64> {
    pool.list_all_hash().iter().map(|x| x.3).collect()
}

#[test]
fn push_orders_by_price() {
    let mut pool = MemoryPool::new();
    assert_eq!(push(&mut pool, 1, vec![], 1, 10), Ok(0));
    assert_eq!(push(&mut pool, 2, vec![], 3, 20), Ok(0));
    assert_eq!(push(&mut pool, 3, vec![], 2, 30), Ok(1));
    assert_eq!(order(&pool), vec![2, 3, 1]);
    assert_eq!(pool.position(&h(2)), Some(0));
    assert_eq!(pool.position(&h(3)), Some(1));
    assert_eq!(pool.position(&h(1)), Some(2));
}

#[test]
fn equal_price_keeps_earlier_time_first() {
    let mut pool = MemoryPool::new();
    push(&mut pool, 1, vec![], 5, 20).unwrap();
    push(&mut pool, 2, vec![], 5, 10).unwrap();
    push(&mut pool, 3, vec![], 5, 20).unwrap();
    assert_eq!(order(&pool), vec![2, 1, 3]);
}

#[test]
fn dependency_overrides_price() {
    let mut pool = MemoryPool::new();
    push(&mut pool, 1, vec![], 1, 10).unwrap();
    assert_eq!(push(&mut pool, 2, vec![1], 9, 20), Ok(1));
    assert_eq!(order(&pool), vec![1, 2]);
}

#[test]
fn disturb_repair_scenario() {
    // A, B, C with C depending on A; D depends on B.
    let mut pool = MemoryPool::new();
    push(&mut pool, 1, vec![], 5, 1).unwrap();
    push(&mut pool, 2, vec![], 4, 2).unwrap();
    push(&mut pool, 3, vec![1], 3, 3).unwrap();
    assert_eq!(order(&pool), vec![1, 2, 3]);
    push(&mut pool, 4, vec![2], 10, 4).unwrap();
    let p = |x: u64| pool.position(&h(x)).unwrap();
    assert!(p(1) < p(2) && p(2) < p(4));
    assert!(p(1) < p(3));
    assert_eq!(pool.length(), 4);
}

#[test]
fn parent_arriving_after_its_child_is_repaired() {
    let mut pool = MemoryPool::new();
    // child of 3 arrives first, then an unrelated entry, then 3 which depends on it
    push(&mut pool, 1, vec![3], 9, 1).unwrap();
    push(&mut pool, 2, vec![], 1, 2).unwrap();
    assert_eq!(order(&pool), vec![1, 2]);
    assert_eq!(push(&mut pool, 3, vec![2], 5, 3), Ok(1));
    assert_eq!(order(&pool), vec![2, 3, 1]);
}

#[test]
fn duplicate_push_leaves_pool_unchanged() {
    let mut pool = MemoryPool::new();
    push(&mut pool, 1, vec![], 1, 10).unwrap();
    push(&mut pool, 2, vec![], 2, 10).unwrap();
    let before = order(&pool);
    assert_eq!(push(&mut pool, 1, vec![], 99, 0), Err(PoolError::DuplicateHash));
    assert_eq!(order(&pool), before);
    assert_eq!(pool.get_obj(&h(1)), Some(1));
}

#[test]
fn remove_keeps_children() {
    let mut pool = MemoryPool::new();
    push(&mut pool, 1, vec![], 5, 1).unwrap();
    push(&mut pool, 2, vec![], 4, 2).unwrap();
    push(&mut pool, 3, vec![1], 3, 3).unwrap();
    assert_eq!(pool.remove(&h(1)), Ok(()));
    assert_eq!(order(&pool), vec![2, 3]);
    assert!(!pool.exist(&h(1)));
}

#[test]
fn remove_with_depends_takes_closure() {
    let mut pool = MemoryPool::new();
    push(&mut pool, 1, vec![], 5, 1).unwrap();
    push(&mut pool, 2, vec![], 4, 2).unwrap();
    push(&mut pool, 3, vec![1], 3, 3).unwrap();
    assert_eq!(pool.remove_with_depends(&h(1)), Ok(2));
    assert_eq!(order(&pool), vec![2]);
}

#[test]
fn remove_with_depends_is_transitive() {
    let mut pool = MemoryPool::new();
    push(&mut pool, 1, vec![], 5, 1).unwrap();
    push(&mut pool, 2, vec![1], 4, 2).unwrap();
    push(&mut pool, 3, vec![2], 3, 3).unwrap();
    push(&mut pool, 4, vec![], 1, 4).unwrap();
    assert_eq!(pool.remove_with_depends(&h(1)), Ok(3));
    assert_eq!(order(&pool), vec![4]);
}

#[test]
fn remove_missing_hash_fails() {
    let mut pool = MemoryPool::new();
    push(&mut pool, 1, vec![], 5, 1).unwrap();
    assert_eq!(pool.remove(&h(7)), Err(PoolError::NotFound));
    assert_eq!(pool.remove_with_depends(&h(7)), Err(PoolError::NotFound));
    assert_eq!(order(&pool), vec![1]);
}

#[test]
fn push_then_remove_restores_order() {
    let mut pool = MemoryPool::new();
    push(&mut pool, 1, vec![], 5, 1).unwrap();
    push(&mut pool, 2, vec![1], 4, 2).unwrap();
    push(&mut pool, 3, vec![], 3, 3).unwrap();
    let before = order(&pool);
    push(&mut pool, 9, vec![1], 7, 4).unwrap();
    assert_ne!(order(&pool), before);
    pool.remove(&h(9)).unwrap();
    assert_eq!(order(&pool), before);
}

#[test]
fn remove_many_reinserts_unlisted_children() {
    let mut pool = MemoryPool::new();
    push(&mut pool, 1, vec![], 5, 1).unwrap();
    push(&mut pool, 2, vec![1], 4, 2).unwrap();
    push(&mut pool, 3, vec![], 3, 3).unwrap();
    push(&mut pool, 4, vec![3], 2, 4).unwrap();
    pool.remove_many(&vec![h(1), h(4), h(42)]);
    assert_eq!(order(&pool), vec![2, 3]);
}

#[test]
fn clear_by_deadline_removes_expired_and_dependents() {
    let mut pool = MemoryPool::new();
    pool.push(1, h(1), vec![], 5, 1, 10, 1).unwrap();
    pool.push(2, h(2), vec![h(1)], 4, 2, 50, 1).unwrap();
    pool.push(3, h(3), vec![], 3, 3, 50, 1).unwrap();
    pool.push(4, h(4), vec![], 2, 4, 5, 1).unwrap();
    let mut gone = pool.clear_by_deadline(20);
    gone.sort();
    assert_eq!(gone, vec![1, 2, 4]);
    assert_eq!(order(&pool), vec![3]);
    assert_eq!(pool.clear_by_deadline(20), Vec::<u32>::new());
}

#[test]
fn list_size_limit_stops_before_limit() {
    let mut pool = MemoryPool::new();
    pool.push(1, h(1), vec![], 3, 1, 0, 10).unwrap();
    pool.push(2, h(2), vec![], 2, 2, 0, 20).unwrap();
    pool.push(3, h(3), vec![], 1, 3, 0, 30).unwrap();
    assert_eq!(pool.list_size_limit(35), vec![1, 2]);
    assert_eq!(pool.list_size_limit(30), vec![1]);
    assert_eq!(pool.list_size_limit(31), vec![1, 2]);
    assert_eq!(pool.list_size_limit(61), vec![1, 2, 3]);
    assert_eq!(pool.list_size_limit(0), Vec::<u32>::new());
}

#[test]
fn list_all_obj_in_both_directions() {
    let mut pool = MemoryPool::new();
    push(&mut pool, 1, vec![], 3, 1).unwrap();
    push(&mut pool, 2, vec![], 2, 2).unwrap();
    push(&mut pool, 3, vec![], 1, 3).unwrap();
    assert_eq!(pool.list_all_obj(false), vec![1, 2, 3]);
    assert_eq!(pool.list_all_obj(true), vec![3, 2, 1]);
}

#[test]
fn clear_all_empties_pool() {
    let mut pool = MemoryPool::new();
    push(&mut pool, 1, vec![], 3, 1).unwrap();
    push(&mut pool, 2, vec![1], 2, 2).unwrap();
    pool.clear_all();
    assert_eq!(pool.length(), 0);
    assert_eq!(pool.get_obj(&h(1)), None);
    assert!(!pool.exist(&h(2)));
}

#[test]
fn hash_list_has_no_repeats_after_edits() {
    let mut pool = MemoryPool::new();
    for i in 0..20u64 {
        let deps = if i % 3 == 0 && i > 0 { vec![i - 1] } else { vec![] };
        push(&mut pool, i, deps, (i * 7 % 5) as u32, i as u32).unwrap();
    }
    pool.remove(&h(4)).unwrap();
    pool.remove_many(&vec![h(7), h(10)]);
    let hashes = order(&pool);
    let mut sorted = hashes.clone();
    sorted.sort();
    sorted.dedup();
    assert_eq!(sorted.len(), hashes.len());
    for (i, x) in hashes.iter().enumerate() {
        if x % 3 == 0 && *x > 0 {
            if let Some(p) = pool.position(&h(x - 1)) {
                assert!(p < i);
            }
        }
    }
}

#[test]
fn hash_bytes_round_trip() {
    let bytes: Vec<u8> = (1..=32).collect();
    let hash = TxHash::from_be_bytes(&bytes);
    assert_eq!(hash, TxHash::new(0x0102030405060708, 0x090a0b0c0d0e0f10, 0x1112131415161718, 0x191a1b1c1d1e1f20));
    assert_eq!(hash.to_be_bytes(), bytes);
    let entry = Unconfirmed { obj: 0u8, hash, depends: vec![], price: 0, time: 0, deadline: 0, size: 0 };
    assert_eq!(entry.bytes(), bytes);
}

#[test]
fn remove_keeps_order_outside_closure() {
    let mut pool = MemoryPool::new();
    push(&mut pool, 1, vec![], 9, 1).unwrap();
    push(&mut pool, 2, vec![], 8, 2).unwrap();
    push(&mut pool, 3, vec![1], 7, 3).unwrap();
    push(&mut pool, 4, vec![], 6, 4).unwrap();
    push(&mut pool, 5, vec![3], 5, 5).unwrap();
    assert_eq!(order(&pool), vec![1, 2, 3, 4, 5]);
    pool.remove(&h(1)).unwrap();
    assert_eq!(order(&pool), vec![2, 3, 4, 5]);
}
