use physics2d::util::pool::Pool;

#[test]
fn new_pool_is_empty() {
    let pool: Pool<u32> = Pool::new();
    assert_eq!(pool.len(), 0);
    assert!(!pool.contains(0));
    let by_default: Pool<u32> = Pool::default();
    assert_eq!(by_default.len(), 0);
}

#[test]
fn allocation_hands_out_consecutive_ids() {
    let mut pool: Pool<u32> = Pool::new();
    assert_eq!(pool.allocate_with(10), 0);
    assert_eq!(pool.allocate_with(11), 1);
    assert_eq!(pool.allocate(), 2);
    assert_eq!(pool.len(), 3);
    assert_eq!(*pool.get(0), 10);
    assert_eq!(*pool.get(1), 11);
    assert_eq!(*pool.get(2), 0);
}

#[test]
fn get_mut_changes_one_slot() {
    let mut pool: Pool<u32> = Pool::new();
    let a = pool.allocate_with(1);
    let b = pool.allocate_with(2);
    *pool.get_mut(a) = 5;
    assert_eq!(*pool.get(a), 5);
    assert_eq!(*pool.get(b), 2);
}

#[test]
fn freed_slot_is_no_longer_contained() {
    let mut pool: Pool<u32> = Pool::new();
    let a = pool.allocate_with(1);
    let b = pool.allocate_with(2);
    pool.free(a);
    assert!(!pool.contains(a));
    assert!(pool.contains(b));
    assert_eq!(pool.len(), 1);
    assert!(!pool.contains(7));
    assert!(!pool.contains(usize::MAX));
}

#[test]
fn last_freed_slot_is_reused_first() {
    let mut pool: Pool<u32> = Pool::new();
    let ids: Vec<usize> = (0..4).map(|i| pool.allocate_with(i)).collect();
    assert_eq!(ids, vec![0, 1, 2, 3]);
    pool.free(1);
    pool.free(3);
    assert_eq!(pool.allocate_with(30), 3);
    assert_eq!(pool.allocate_with(10), 1);
    assert_eq!(pool.allocate_with(40), 4);
    assert_eq!(*pool.get(3), 30);
    assert_eq!(*pool.get(1), 10);
    assert_eq!(pool.len(), 5);
}

#[test]
fn free_then_allocate_gives_the_same_slot() {
    let mut pool: Pool<u32> = Pool::new();
    let _a = pool.allocate_with(1);
    let b = pool.allocate_with(2);
    let _c = pool.allocate_with(3);
    pool.free(b);
    assert_eq!(pool.allocate(), b);
    assert_eq!(*pool.get(b), 0);
}
