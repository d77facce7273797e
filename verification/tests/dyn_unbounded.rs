use maniac::spsc::DynSpscConfig;
use maniac::unbounded::DynUnboundedSpsc;

fn test_config() -> DynSpscConfig {
    DynSpscConfig::new(6, 8)
}

fn small_config() -> DynSpscConfig {
    DynSpscConfig::new(2, 2)
}

fn tiny_config() -> DynSpscConfig {
    DynSpscConfig::new(1, 1)
}

#[test]
fn test_basic_unbounded_dyn_spsc() {
    let mut q = DynUnboundedSpsc::<u64>::new_with_config(test_config());
    assert!(q.try_push(42).is_ok());
    assert_eq!(q.try_pop(), Some(42));
    assert_eq!(q.try_pop(), None);
}

#[test]
fn unbounded_test_unbounded_growth() {
    let mut q = DynUnboundedSpsc::<u64>::new_with_config(small_config());
    for i in 0..15 {
        assert!(q.try_push(i).is_ok());
    }
    assert!(q.try_push(15).is_ok());
    for i in 0..16 {
        assert_eq!(q.try_pop(), Some(i));
    }
    assert_eq!(q.try_pop(), None);
}

#[test]
fn unbounded_test_multiple_nodes_traversal() {
    let mut q = DynUnboundedSpsc::<u64>::new_with_config(tiny_config());
    for i in 0..10 {
        assert!(q.try_push(i).is_ok());
    }
    assert!(q.node_count() > 1);
    for i in 0..10 {
        assert_eq!(q.try_pop(), Some(i));
    }
}

#[test]
fn unbounded_test_try_push_n_unbounded() {
    let mut q = DynUnboundedSpsc::<u64>::new_with_config(small_config());
    let mut items: Vec<u64> = (0..50).collect();
    let pushed = q.try_push_n(&mut items).unwrap();
    assert_eq!(pushed, 50);
    for i in 0..50 {
        assert_eq!(q.try_pop(), Some(i));
    }
}

#[test]
fn test_try_pop_n_unbounded() {
    let mut q = DynUnboundedSpsc::<u64>::new_with_config(small_config());
    for i in 0..50 {
        assert!(q.try_push(i).is_ok());
    }
    let mut buffer = [0u64; 20];
    let popped = q.try_pop_n(&mut buffer).unwrap();
    assert_eq!(popped, 20);
    for i in 0..20 {
        assert_eq!(buffer[i], i as u64);
    }
    let popped = q.try_pop_n(&mut buffer).unwrap();
    assert_eq!(popped, 20);
    for i in 0..20 {
        assert_eq!(buffer[i], (i + 20) as u64);
    }
}

#[test]
fn unbounded_test_consumer_advancement() {
    let mut q = DynUnboundedSpsc::<u64>::new_with_config(small_config());
    for i in 0..15 {
        assert!(q.try_push(i).is_ok());
    }
    assert!(q.try_push(15).is_ok());
    assert_eq!(q.node_count(), 2);
    for i in 0..16 {
        assert_eq!(q.try_pop(), Some(i));
    }
    for i in 16..19 {
        assert!(q.try_push(i).is_ok());
    }
    for i in 16..19 {
        assert_eq!(q.try_pop(), Some(i));
    }
}

#[test]
fn unbounded_test_statistics_tracking() {
    let config = small_config();
    let mut q = DynUnboundedSpsc::<u64>::new_with_config(config);
    assert_eq!(q.node_count(), 1);
    assert_eq!(q.total_capacity(), config.capacity());
    for i in 0..16 {
        assert!(q.try_push(i).is_ok());
    }
    assert_eq!(q.node_count(), 2);
    assert_eq!(q.total_capacity(), config.capacity() * 2);
}

#[test]
fn unbounded_test_consume_in_place_unbounded() {
    let mut q = DynUnboundedSpsc::<u64>::new_with_config(small_config());
    for i in 0..30 {
        assert!(q.try_push(i).is_ok());
    }
    let mut sum = 0u64;
    let consumed = q.consume_in_place(30, |chunk: &[u64]| {
        for &item in chunk {
            sum += item;
        }
        chunk.len()
    });
    assert_eq!(consumed, 30);
    assert_eq!(sum, (0..30).sum::<u64>());
}

#[test]
fn unbounded_test_large_node_count_stress() {
    let mut q = DynUnboundedSpsc::<u64>::new_with_config(tiny_config());
    let num_items = 1000;
    for i in 0..num_items {
        assert!(q.try_push(i).is_ok());
    }
    assert!(q.node_count() > 100);
    for i in 0..num_items {
        assert_eq!(q.try_pop(), Some(i));
    }
    assert_eq!(q.try_pop(), None);
}

#[test]
fn unbounded_test_interleaved_producer_consumer_stress() {
    let mut q = DynUnboundedSpsc::<u64>::new_with_config(tiny_config());
    let mut expected_consumed = 0;
    for round in 0..20 {
        for i in 0..5 {
            let item = round * 5 + i;
            assert!(q.try_push(item).is_ok());
        }
        for _ in 0..3 {
            if let Some(item) = q.try_pop() {
                assert_eq!(item, expected_consumed);
                expected_consumed += 1;
            }
        }
    }
    while let Some(item) = q.try_pop() {
        assert_eq!(item, expected_consumed);
        expected_consumed += 1;
    }
    assert_eq!(expected_consumed, 100);
}

#[test]
fn unbounded_test_try_push_n_with_node_creation() {
    let mut q = DynUnboundedSpsc::<u64>::new_with_config(tiny_config());
    let mut first_batch: Vec<u64> = (0..3).collect();
    let pushed = q.try_push_n(&mut first_batch).unwrap();
    assert_eq!(pushed, 3);
    assert_eq!(q.node_count(), 1);
    let mut second_batch: Vec<u64> = (3..10).collect();
    let pushed = q.try_push_n(&mut second_batch).unwrap();
    assert_eq!(pushed, 7);
    assert!(q.node_count() > 1);
    for i in 0..10 {
        assert_eq!(q.try_pop(), Some(i));
    }
}

#[test]
fn unbounded_test_consume_in_place_across_nodes() {
    let mut q = DynUnboundedSpsc::<u64>::new_with_config(tiny_config());
    for i in 0..10 {
        assert!(q.try_push(i).is_ok());
    }
    let mut sum = 0u64;
    let consumed = q.consume_in_place(10, |chunk: &[u64]| {
        for &item in chunk {
            sum += item;
        }
        chunk.len()
    });
    assert_eq!(consumed, 10);
    assert_eq!(sum, (0..10).sum::<u64>());
    assert_eq!(q.try_pop(), None);
}

#[test]
fn unbounded_test_try_push_n_performance() {
    let mut q = DynUnboundedSpsc::<u64>::new_with_config(small_config());
    let mut large_batch: Vec<u64> = (0..100).collect();
    let pushed = q.try_push_n(&mut large_batch).unwrap();
    assert_eq!(pushed, 100);
    for i in 0..100 {
        assert_eq!(q.try_pop(), Some(i));
    }
    assert!(q.node_count() >= 6);
}

#[test]
fn test_channel_close() {
    let mut q = DynUnboundedSpsc::<u64>::new_with_config(test_config());
    q.try_push(1).unwrap();
    q.try_push(2).unwrap();
    q.close_channel();
    assert!(q.is_closed());
    assert_eq!(q.try_pop(), Some(1));
    assert_eq!(q.try_pop(), Some(2));
    assert_eq!(q.try_pop(), None);
}

#[test]
fn test_config_access() {
    let config = DynSpscConfig::new(5, 7);
    let q = DynUnboundedSpsc::<u64>::new_with_config(config);
    assert_eq!(q.config().p, 5);
    assert_eq!(q.config().num_segs_p2, 7);
    assert_eq!(q.config().p, 5);
    assert_eq!(q.config().num_segs_p2, 7);
}

#[test]
fn test_default_config() {
    let mut q = DynUnboundedSpsc::<u64>::new();
    assert_eq!(q.config().p, 6);
    assert_eq!(q.config().num_segs_p2, 8);
    q.try_push(42).unwrap();
    assert_eq!(q.try_pop(), Some(42));
}

#[test]
fn closed_producer_node_refuses_pushes() {
    let mut q = DynUnboundedSpsc::<u64>::new_with_config(tiny_config());
    q.try_push(1).unwrap();
    q.close_channel();
    assert!(q.try_push(2).is_err());
    let mut batch = vec![3u64, 4];
    assert!(q.try_push_n(&mut batch).is_err());
    assert_eq!(batch, vec![3, 4]);
    assert_eq!(q.try_pop(), Some(1));
}

#[test]
fn try_pop_n_reports_empty_and_len_spans_nodes() {
    let mut q = DynUnboundedSpsc::<u64>::new_with_config(tiny_config());
    let mut buf = [0u64; 4];
    assert!(q.try_pop_n(&mut buf).is_err());
    for i in 0..7 {
        q.try_push(i).unwrap();
    }
    assert_eq!(q.len(), 7);
    assert_eq!(q.node_count(), 3);
}

#[test]
fn push_position_is_that_of_the_producer_node() {
    let mut q: DynUnboundedSpsc<u32> = DynUnboundedSpsc::new_with_config(test_config());
    assert_eq!(q.push_position(), 0);
    q.try_push(1).unwrap();
    q.try_push(2).unwrap();
    assert_eq!(q.push_position(), 2);
}
