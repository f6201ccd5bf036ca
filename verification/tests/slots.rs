use velo_core::slot_manager::{SlotId, SlotPool};

#[test]
fn test_slot_lifecycle() {
    let mut pool = SlotPool::new(4);
    assert_eq!(pool.available_slots(), 4);
    assert!(!pool.is_empty());

    let s0 = pool.allocate().unwrap();
    let s1 = pool.allocate().unwrap();
    assert_eq!(s0.0, 0);
    assert_eq!(s1.0, 1);
    assert_eq!(pool.available_slots(), 2);

    pool.release(s0);
    assert_eq!(pool.available_slots(), 3);

    let s2 = pool.allocate().unwrap();
    let s3 = pool.allocate().unwrap();
    let s4 = pool.allocate().unwrap();
    assert_eq!(s2.0, 2);
    assert_eq!(s3.0, 3);
    assert_eq!(s4.0, 0); // Reused s0

    assert!(pool.allocate().is_none());
    assert!(pool.is_empty());
}

#[test]
fn test_zero_capacity_pool() {
    let mut pool = SlotPool::new(0);
    assert_eq!(pool.capacity(), 0);
    assert_eq!(pool.available_slots(), 0);
    assert!(pool.is_empty());
    assert!(pool.allocate().is_none());
}

#[test]
fn test_fifo_reuse() {
    let mut pool = SlotPool::new(3);
    let _ = pool.allocate(); // 0
    let s1 = pool.allocate().unwrap(); // 1
    let _ = pool.allocate(); // 2

    pool.release(s1);
    let s1_new = pool.allocate().unwrap();
    assert_eq!(s1_new.0, 1);
}

#[test]
fn test_slot_id_traits() {
    let id = SlotId(1);
    let id2 = id.clone();
    assert_eq!(id, id2);
    assert!(format!("{:?}", id).contains("SlotId"));
}

#[test]
fn only_slots_of_the_pool_are_valid() {
    let pool = SlotPool::new(2);
    assert!(pool.is_valid(SlotId(0)));
    assert!(pool.is_valid(SlotId(1)));
    assert!(!pool.is_valid(SlotId(2)));
    assert!(!pool.is_valid(SlotId(5)));
}

#[test]
fn released_slots_come_back_last() {
    let mut pool = SlotPool::new(3);
    let s0 = pool.allocate().unwrap();
    pool.release(s0);
    let order: Vec<u32> = (0..3).map(|_| pool.allocate().unwrap().0).collect();
    assert_eq!(order, vec![1, 2, 0]);
}
