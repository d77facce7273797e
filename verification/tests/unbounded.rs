use maniac::unbounded::UnboundedSpsc;

#[test]
fn test_basic_unbounded_spsc() {
    let mut q = UnboundedSpsc::<u64, 6, 8>::new();
    assert!(q.try_push(42).is_ok());
    assert_eq!(q.try_pop(), Some(42));
    assert_eq!(q.try_pop(), None);
}

#[test]
fn test_memory_dropping_different_nodes() {
    let mut q = UnboundedSpsc::<u64, 2, 2>::new();
    for i in 0..50 {
        assert!(q.try_push(i).is_ok());
    }
    assert!(q.node_count() > 1);
    let initial_node_count = q.node_count();
    for i in 0..15 {
        assert_eq!(q.try_pop(), Some(i));
    }
    assert_eq!(q.try_pop(), Some(15));
    for i in 50..60 {
        assert!(q.try_push(i).is_ok());
    }
    for i in 16..20 {
        assert_eq!(q.try_pop(), Some(i));
    }
    assert!(q.node_count() >= initial_node_count);
}

#[test]
fn test_producer_consumer_position_divergence() {
    let mut q = UnboundedSpsc::<u64, 1, 1>::new();
    for i in 0..30 {
        assert!(q.try_push(i).is_ok());
    }
    assert_eq!(q.try_pop(), Some(0));
    assert_eq!(q.try_pop(), Some(1));
    assert_eq!(q.try_pop(), Some(2));
    for i in 30..33 {
        assert!(q.try_push(i).is_ok());
    }
    assert_eq!(q.try_pop(), Some(3));
    assert_eq!(q.try_pop(), Some(4));
    assert_eq!(q.try_pop(), Some(5));
    assert_eq!(q.try_pop(), Some(6));
    assert_eq!(q.try_pop(), Some(7));
    assert_eq!(q.try_pop(), Some(8));
    for i in 9..12 {
        assert_eq!(q.try_pop(), Some(i));
    }
}

#[test]
fn test_memory_pressure_with_rapid_producer_consumer() {
    let mut q = UnboundedSpsc::<u64, 1, 1>::new();
    let mut produced_items = Vec::new();
    let mut consumed_items = Vec::new();
    for i in 0..200 {
        assert!(q.try_push(i).is_ok());
        produced_items.push(i);
    }
    for _ in 0..150 {
        if let Some(item) = q.try_pop() {
            consumed_items.push(item);
        }
    }
    assert_eq!(consumed_items.len(), 150);
    for (i, &item) in consumed_items.iter().enumerate() {
        assert_eq!(item, i as u64);
    }
    for i in 200..250 {
        assert!(q.try_push(i).is_ok());
        produced_items.push(i);
    }
    for _ in 0..100 {
        if let Some(item) = q.try_pop() {
            consumed_items.push(item);
        }
    }
    assert_eq!(consumed_items.len(), 250);
    for (i, &item) in consumed_items.iter().enumerate() {
        assert_eq!(item, i as u64);
    }
}

#[test]
fn test_consumer_abandoning_nodes() {
    let mut q = UnboundedSpsc::<u64, 1, 1>::new();
    for i in 0..50 {
        assert!(q.try_push(i).is_ok());
    }
    for i in 0..10 {
        assert_eq!(q.try_pop(), Some(i));
    }
    for i in 50..60 {
        assert!(q.try_push(i).is_ok());
    }
    let _other = UnboundedSpsc::<u64, 1, 1>::new();
    for i in 60..70 {
        assert!(q.try_push(i).is_ok());
    }
}

#[test]
fn test_node_count_accuracy() {
    let mut q = UnboundedSpsc::<u64, 2, 2>::new();
    assert_eq!(q.node_count(), 1);
    for i in 0..15 {
        assert_eq!(q.node_count(), 1);
        assert!(q.try_push(i).is_ok());
    }
    assert!(q.try_push(15).is_ok());
    assert_eq!(q.node_count(), 2);
    for i in 16..30 {
        assert!(q.try_push(i).is_ok());
    }
    assert_eq!(q.node_count(), 2);
    assert!(q.try_push(30).is_ok());
    assert_eq!(q.node_count(), 3);
    for i in 0..10 {
        assert_eq!(q.try_pop(), Some(i));
    }
    assert_eq!(q.node_count(), 3);
    for i in 10..15 {
        assert_eq!(q.try_pop(), Some(i));
    }
    assert_eq!(q.node_count(), 3);
}

#[test]
fn fixed_queue_statistics_and_consume() {
    let mut q = UnboundedSpsc::<u64, 2, 2>::new();
    assert_eq!(q.total_capacity(), 15);
    for i in 0..16 {
        assert!(q.try_push(i).is_ok());
    }
    assert_eq!(q.node_count(), 2);
    assert_eq!(q.total_capacity(), 30);
    let mut sum = 0u64;
    let consumed = q.consume_in_place(10, |chunk: &[u64]| {
        for &item in chunk {
            sum += item;
        }
        chunk.len()
    });
    assert_eq!(consumed, 10);
    assert_eq!(sum, (0..10).sum::<u64>());
    let mut items: Vec<u64> = (100..110).collect();
    assert_eq!(q.try_push_n(&mut items).ok(), Some(10));
    assert!(items.is_empty());
    assert_eq!(q.len(), 16);
    q.close();
    assert!(q.is_closed());
}

#[test]
fn test_channel_close_with_divergent_positions() {
    type TestQ = UnboundedSpsc<u64, 2, 2>; // 15 items per node
    let mut q = TestQ::new();

    // Fill multiple nodes
    for i in 0..40 {
        assert!(q.try_push(i).is_ok());
    }

    // Consumer gets ahead and consumes several nodes
    for i in 0..20 {
        assert_eq!(q.try_pop(), Some(i));
    }

    // Close the channel while producer and consumer are at different nodes
    q.close_channel();

    // Consumer should still be able to consume remaining items
    for i in 20..40 {
        assert_eq!(q.try_pop(), Some(i));
    }

    // After consuming all items, should get None
    assert_eq!(q.try_pop(), None);
    assert!(q.is_closed());
}

#[test]
fn test_unbounded_growth() {
    let mut q = UnboundedSpsc::<u64, 2, 2>::new();
    for i in 0..4 {
        assert!(q.try_push(i).is_ok());
    }
    assert!(q.try_push(4).is_ok());
    for i in 0..5 {
        assert_eq!(q.try_pop(), Some(i));
    }
    assert_eq!(q.try_pop(), None);
}

#[test]
fn test_multiple_nodes_traversal() {
    let mut q = UnboundedSpsc::<u64, 1, 1>::new();
    for i in 0..10 {
        assert!(q.try_push(i).is_ok());
    }
    assert!(q.node_count() > 1);
    assert_eq!(q.total_capacity(), q.node_count() * 3);
    for i in 0..10 {
        assert_eq!(q.try_pop(), Some(i));
    }
}

#[test]
fn test_try_push_n_unbounded() {
    let mut q = UnboundedSpsc::<u64, 2, 2>::new();
    let mut items: Vec<u64> = (0..10).collect();
    let pushed = q.try_push_n(&mut items).unwrap();
    assert_eq!(pushed, 10);
    for i in 0..10 {
        assert_eq!(q.try_pop(), Some(i));
    }
}

#[test]
fn test_consumer_advancement() {
    let mut q = UnboundedSpsc::<u64, 2, 2>::new();
    for i in 0..15 {
        assert!(q.try_push(i).is_ok());
    }
    assert!(q.try_push(15).is_ok());
    assert_eq!(q.node_count(), 2);
    for i in 0..16 {
        assert_eq!(q.try_pop(), Some(i));
    }
    for i in 16..19 {
        assert!(q.try_push(i).is_ok());
    }
    for i in 16..19 {
        assert_eq!(q.try_pop(), Some(i));
    }
}

#[test]
fn test_statistics_tracking() {
    let mut q = UnboundedSpsc::<u64, 2, 2>::new();
    assert_eq!(q.node_count(), 1);
    assert_eq!(q.total_capacity(), 15);
    for i in 0..16 {
        assert!(q.try_push(i).is_ok());
    }
    assert_eq!(q.node_count(), 2);
    assert_eq!(q.total_capacity(), 30);
}

#[test]
fn test_consume_in_place_unbounded() {
    let mut q = UnboundedSpsc::<u64, 2, 2>::new();
    for i in 0..10 {
        assert!(q.try_push(i).is_ok());
    }
    let mut sum = 0u64;
    let consumed = q.consume_in_place(10, |chunk: &[u64]| {
        for &item in chunk {
            sum += item;
        }
        chunk.len()
    });
    assert_eq!(consumed, 10);
    assert_eq!(sum, (0..10).sum::<u64>());
}

#[test]
fn test_large_node_count_stress() {
    let mut q = UnboundedSpsc::<u64, 1, 1>::new();
    let num_items = 1000;
    for i in 0..num_items {
        assert!(q.try_push(i).is_ok());
    }
    assert!(q.node_count() > 100);
    for i in 0..num_items {
        assert_eq!(q.try_pop(), Some(i));
    }
    assert_eq!(q.try_pop(), None);
}

#[test]
fn test_interleaved_producer_consumer_stress() {
    let mut q = UnboundedSpsc::<u64, 1, 1>::new();
    let mut expected_consumed = 0;
    for round in 0..20 {
        for i in 0..5 {
            let item = round * 5 + i;
            assert!(q.try_push(item).is_ok());
        }
        for _ in 0..3 {
            if let Some(item) = q.try_pop() {
                assert_eq!(item, expected_consumed);
                expected_consumed += 1;
            }
        }
    }
    while let Some(item) = q.try_pop() {
        assert_eq!(item, expected_consumed);
        expected_consumed += 1;
    }
    assert_eq!(expected_consumed, 100);
}

#[test]
fn test_try_push_n_with_node_creation() {
    let mut q = UnboundedSpsc::<u64, 1, 1>::new();
    let mut first_batch: Vec<u64> = (0..3).collect();
    let pushed = q.try_push_n(&mut first_batch).unwrap();
    assert_eq!(pushed, 3);
    assert_eq!(q.node_count(), 1);
    let mut second_batch: Vec<u64> = (3..10).collect();
    let pushed = q.try_push_n(&mut second_batch).unwrap();
    assert_eq!(pushed, 7);
    assert!(q.node_count() > 1);
    for i in 0..10 {
        assert_eq!(q.try_pop(), Some(i));
    }
}

#[test]
fn test_consume_in_place_across_nodes() {
    let mut q = UnboundedSpsc::<u64, 1, 1>::new();
    for i in 0..10 {
        assert!(q.try_push(i).is_ok());
    }
    let mut sum = 0u64;
    let consumed = q.consume_in_place(10, |chunk: &[u64]| {
        for &item in chunk {
            sum += item;
        }
        chunk.len()
    });
    assert_eq!(consumed, 10);
    assert_eq!(sum, (0..10).sum::<u64>());
    assert_eq!(q.try_pop(), None);
}

#[test]
fn test_try_push_n_performance() {
    let mut q = UnboundedSpsc::<u64, 2, 2>::new();
    let mut large_batch: Vec<u64> = (0..100).collect();
    let pushed = q.try_push_n(&mut large_batch).unwrap();
    assert_eq!(pushed, 100);
    for i in 0..100 {
        assert_eq!(q.try_pop(), Some(i));
    }
    assert!(q.node_count() >= 6);
    assert!(q.node_count() <= 8);
}
