use maniac::spsc::{DynSpsc, DynSpscConfig, PopError, PushError};

fn test_config() -> DynSpscConfig {
    DynSpscConfig::new(6, 8)
}

#[derive(Copy, Clone, Debug, PartialEq, Eq)]
struct TestStruct {
    a: u32,
    b: i64,
}

#[test]
fn basic_push_pop() {
    let mut q = DynSpsc::<u64>::new_with_config(test_config());
    for i in 0..200u64 {
        q.try_push(i).unwrap();
    }
    for i in 0..200u64 {
        assert_eq!(q.try_pop(), Some(i));
    }
    assert!(q.try_pop().is_none());
}

#[test]
fn zero_copy_consume_in_place() {
    let mut q = DynSpsc::<u64>::new_with_config(test_config());
    let n = 64 * 3 + 5;
    for i in 0..n as u64 {
        q.try_push(i).unwrap();
    }
    let mut seen = 0u64;
    while seen < n as u64 {
        let mut local_seen = seen;
        let took = q.consume_in_place(50, |chunk: &[u64]| {
            for (k, &v) in chunk.iter().enumerate() {
                assert_eq!(v, local_seen + k as u64, "Mismatch at local offset {}", k);
            }
            local_seen += chunk.len() as u64;
            chunk.len()
        });
        assert!(took > 0);
        seen += took as u64;
    }
}

#[test]
fn test_config_values() {
    let config = test_config();
    assert_eq!(config.seg_size(), 64);
    assert_eq!(config.num_segs(), 256);
    assert_eq!(config.seg_mask(), 63);
    assert_eq!(config.dir_mask(), 255);
    assert_eq!(config.capacity(), 64 * 256 - 1);
}

#[test]
fn test_new_queue_is_empty() {
    let q = DynSpsc::<u64>::new_with_config(test_config());
    assert!(q.is_empty());
    assert!(q.is_empty());
    assert!(!q.is_full());
    assert_eq!(q.len(), 0);
}

#[test]
fn test_single_item_operations() {
    let mut q = DynSpsc::<u64>::new_with_config(test_config());
    assert!(q.is_empty());
    assert!(q.try_push(42).is_ok());
    assert_eq!(q.len(), 1);
    assert!(!q.is_empty());
    assert_eq!(q.try_pop(), Some(42));
    assert_eq!(q.len(), 0);
    assert!(q.is_empty());
}

#[test]
fn test_push_pop_order() {
    let mut q = DynSpsc::<u64>::new_with_config(test_config());
    let items = [1, 2, 3, 4, 5];
    for &item in &items {
        q.try_push(item).unwrap();
    }
    for &expected in &items {
        assert_eq!(q.try_pop(), Some(expected));
    }
}

#[test]
fn test_try_push_n() {
    let mut q = DynSpsc::<u64>::new_with_config(test_config());
    let items = [10, 20, 30, 40, 50];
    let pushed = q.try_push_n(&items).unwrap();
    assert_eq!(pushed, items.len());
    assert_eq!(q.len(), items.len());
    for &expected in items.iter() {
        assert_eq!(q.try_pop(), Some(expected));
    }
}

#[test]
fn test_try_pop_n() {
    let mut q = DynSpsc::<u64>::new_with_config(test_config());
    let items = [1, 2, 3, 4, 5, 6, 7, 8];
    for &item in &items {
        q.try_push(item).unwrap();
    }
    let mut buffer = [0u64; 5];
    let popped = q.try_pop_n(&mut buffer).unwrap();
    assert_eq!(popped, 5);
    assert_eq!(&buffer[..5], &[1, 2, 3, 4, 5]);
    let mut buffer2 = [0u64; 8];
    let popped2 = q.try_pop_n(&mut buffer2).unwrap();
    assert_eq!(popped2, 3);
    assert_eq!(&buffer2[..3], &[6, 7, 8]);
}

#[test]
fn test_operations_on_empty_queue() {
    let mut q = DynSpsc::<u64>::new_with_config(test_config());
    assert_eq!(q.try_pop(), None);
    let mut buffer = [0u64; 5];
    assert!(q.try_pop_n(&mut buffer).is_err());
    let consumed = q.consume_in_place(10, |_: &[u64]| 0);
    assert_eq!(consumed, 0);
}

#[test]
fn test_operations_on_full_queue() {
    let config = test_config();
    let mut q = DynSpsc::<u64>::new_with_config(config);
    let capacity = config.capacity();
    for i in 0..capacity as u64 {
        q.try_push(i).unwrap();
    }
    assert!(q.is_full());
    assert_eq!(q.len(), capacity);
    assert!(q.try_push(999).is_err());
    let items = [1000, 1001, 1002];
    assert!(q.try_push_n(&items).is_err());
    assert_eq!(q.try_pop(), Some(0));
    assert!(!q.is_full());
    assert_eq!(q.len(), capacity - 1);
}

#[test]
fn test_segment_boundaries() {
    let config = test_config();
    let mut q = DynSpsc::<u64>::new_with_config(config);
    let seg_size = config.seg_size();
    for i in 0..seg_size as u64 {
        q.try_push(i).unwrap();
    }
    q.try_push(seg_size as u64).unwrap();
    for i in 0..=seg_size as u64 {
        assert_eq!(q.try_pop(), Some(i));
    }
    assert!(q.is_empty());
}

#[test]
fn test_multiple_segments() {
    let config = test_config();
    let mut q = DynSpsc::<u64>::new_with_config(config);
    let seg_size = config.seg_size();
    let num_segments = 3;
    let total_items = seg_size * num_segments;
    for i in 0..total_items as u64 {
        q.try_push(i).unwrap();
    }
    for i in 0..total_items as u64 {
        assert_eq!(q.try_pop(), Some(i));
    }
    assert!(q.is_empty());
}

#[test]
fn test_queue_reuse_after_drain() {
    let mut q = DynSpsc::<u64>::new_with_config(test_config());
    for i in 0..1000 {
        q.try_push(i as u64).unwrap();
    }
    for i in 0..1000 {
        assert_eq!(q.try_pop(), Some(i as u64));
    }
    assert!(q.is_empty());
    for i in 0..500 {
        q.try_push((i + 1000) as u64).unwrap();
    }
    for i in 0..500 {
        assert_eq!(q.try_pop(), Some((i + 1000) as u64));
    }
    assert!(q.is_empty());
}

#[test]
fn test_different_types() {
    let config = DynSpscConfig::new(5, 6);
    let mut q = DynSpsc::<TestStruct>::new_with_config(config);
    let item1 = TestStruct { a: 1, b: -1 };
    let item2 = TestStruct { a: 2, b: -2 };
    q.try_push(item1).unwrap();
    q.try_push(item2).unwrap();
    assert_eq!(q.try_pop(), Some(item1));
    assert_eq!(q.try_pop(), Some(item2));
    assert_eq!(q.try_pop(), None);
}

#[test]
fn test_close_semantics() {
    let mut q = DynSpsc::<u64>::new_with_config(test_config());
    q.try_push(1).unwrap();
    q.try_push(2).unwrap();
    q.close();
    assert!(q.is_closed());
    assert_eq!(q.try_pop(), Some(1));
    assert_eq!(q.try_pop(), Some(2));
    assert_eq!(q.try_pop(), None);
}

#[test]
fn test_different_configurations() {
    let small_config = DynSpscConfig::new(4, 2);
    let mut q = DynSpsc::<u64>::new_with_config(small_config);
    assert_eq!(q.capacity(), 63);
    for i in 0..63u64 {
        q.try_push(i).unwrap();
    }
    assert!(q.is_full());
    for i in 0..63u64 {
        assert_eq!(q.try_pop(), Some(i));
    }
    let large_config = DynSpscConfig::new(10, 4);
    let mut q2 = DynSpsc::<u64>::new_with_config(large_config);
    assert_eq!(q2.capacity(), 16383);
    for i in 0..1000u64 {
        q2.try_push(i).unwrap();
    }
    for i in 0..1000u64 {
        assert_eq!(q2.try_pop(), Some(i));
    }
}

#[test]
fn closed_queue_refuses_pushes_and_reports_closed_when_drained() {
    let mut q = DynSpsc::<u64>::new_with_config(test_config());
    q.try_push(5).unwrap();
    q.close();
    assert!(matches!(q.try_push(6), Err(PushError::Closed(6))));
    assert!(matches!(q.try_push_n(&[7, 8]), Err(PushError::Closed(()))));
    let mut buf = [0u64; 4];
    assert_eq!(q.try_pop_n(&mut buf), Ok(1));
    assert_eq!(buf[0], 5);
    assert_eq!(q.try_pop_n(&mut buf), Err(PopError::Closed));
}

#[test]
fn empty_open_queue_reports_empty() {
    let mut q = DynSpsc::<u64>::new_with_config(test_config());
    let mut buf = [0u64; 2];
    assert_eq!(q.try_pop_n(&mut buf), Err(PopError::Empty));
}

#[test]
fn full_queue_hands_item_back() {
    let mut q = DynSpsc::<u64>::new_with_config(DynSpscConfig::new(1, 1));
    for i in 0..3u64 {
        q.try_push(i).unwrap();
    }
    assert!(matches!(q.try_push(9), Err(PushError::Full(9))));
    assert_eq!(q.try_push_n(&[1, 2]).is_err(), true);
}

#[test]
fn try_push_n_stops_at_capacity() {
    let mut q = DynSpsc::<u64>::new_with_config(DynSpscConfig::new(1, 1));
    assert_eq!(q.try_push_n(&[1, 2, 3, 4, 5]).ok(), Some(3));
    assert_eq!(q.len(), 3);
}

#[test]
fn segments_are_allocated_lazily_and_pooled() {
    let mut q = DynSpsc::<u64>::new_with_config(DynSpscConfig::new(2, 2));
    assert_eq!(q.allocated_segments(), 0);
    q.try_push(1).unwrap();
    assert_eq!(q.allocated_segments(), 1);
    assert_eq!(q.fresh_allocations(), 1);
    for i in 0..7u64 {
        q.try_push(i).unwrap();
    }
    assert_eq!(q.allocated_segments(), 2);
    assert_eq!(q.allocated_memory_bytes(), 2 * 4 * 8);
    q.reset_allocation_stats();
    assert_eq!(q.fresh_allocations(), 0);
    assert_eq!(q.pool_reuses(), 0);
    assert_eq!(q.deallocate_to(5), 0);
}

#[test]
fn with_capacity_caps_page_and_segments() {
    let c = DynSpscConfig::with_capacity(100, 8, 3);
    assert_eq!(c.seg_size(), 16);
    assert_eq!(c.num_segs(), 1);
    assert_eq!(c.capacity(), 15);
    assert_eq!(c.max_pooled_segments, 1);
    assert_eq!(c.p, 4);
}

#[test]
fn push_position_counts_every_push() {
    let mut q: DynSpsc<u32> = DynSpsc::new_with_config(test_config());
    assert_eq!(q.push_position(), 0);
    q.try_push(7).unwrap();
    q.try_push(8).unwrap();
    assert_eq!(q.try_pop(), Some(7));
    assert_eq!(q.push_position(), 2);
}
