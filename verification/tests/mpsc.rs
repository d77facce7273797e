use maniac::mpsc::{new, new_with_sender, MAX_PRODUCERS};
use maniac::spsc::{PopError, PushError};

#[test]
fn try_pop_drains_and_reports_closed() {
    let (mut tx, mut rx) = new_with_sender::<u64>();

    tx.try_push(&mut rx, 42).unwrap();
    assert_eq!(rx.try_pop().unwrap(), 42);
    assert_eq!(rx.try_pop(), Err(PopError::Empty));

    assert!(rx.close());
    assert_eq!(rx.try_pop(), Err(PopError::Closed));
}

#[test]
fn dropping_local_sender_clears_producer_slot() {
    let (tx, mut rx) = new_with_sender::<u64>();
    assert_eq!(tx.producer_count(&rx), 1);

    tx.close_channel(&mut rx);

    // Closing walks the slots and removes the closed producer.
    assert!(rx.close());
    assert_eq!(rx.producer_count(), 0);
    assert_eq!(rx.inner.queue_count(), 0);
}

#[test]
fn single_producer_multiple_items() {
    let (mut tx, mut rx) = new_with_sender::<u64>();

    for i in 0..100 {
        tx.try_push(&mut rx, i)
            .expect("push should not fail for unbounded queue");
    }

    for i in 0..100 {
        assert_eq!(rx.try_pop().unwrap(), i);
    }

    assert_eq!(rx.try_pop(), Err(PopError::Empty));
}

#[test]
fn unbounded_growth_with_large_batches() {
    let (mut tx, mut rx) = new_with_sender::<u64>();

    let mut items_to_push: Vec<u64> = (0..1000).collect();
    let pushed = tx
        .try_push_n(&mut rx, &mut items_to_push)
        .expect("bulk push should succeed");
    assert_eq!(pushed, 1000, "should push all items");
    assert!(items_to_push.is_empty(), "Vec should be drained");

    for i in 0..1000 {
        assert_eq!(rx.try_pop().unwrap(), i as u64);
    }

    assert_eq!(rx.try_pop(), Err(PopError::Empty));
}

#[test]
fn close_stops_receives() {
    let (mut tx, mut rx) = new_with_sender::<u64>();

    tx.try_push(&mut rx, 42).unwrap();
    assert_eq!(rx.try_pop().unwrap(), 42);

    rx.close();

    assert_eq!(rx.try_pop(), Err(PopError::Closed));

    assert_eq!(tx.try_push(&mut rx, 100), Err(PushError::Closed(100)));
}

#[test]
fn multiple_senders_cloning() {
    let (tx, mut rx) = new_with_sender::<u64>();
    assert_eq!(tx.producer_count(&rx), 1);

    let mut tx2 = rx.create_sender().unwrap();
    assert_eq!(tx2.producer_count(&rx), 2);

    let mut tx3 = rx.create_sender().unwrap();
    assert_eq!(tx3.producer_count(&rx), 3);

    tx.close_channel(&mut rx);
    tx2.try_push(&mut rx, 1).unwrap();
    tx3.try_push(&mut rx, 2).unwrap();

    let mut items = Vec::new();
    for _ in 0..2 {
        if let Ok(val) = rx.try_pop() {
            items.push(val);
        }
    }

    items.sort();
    assert_eq!(items, vec![1, 2]);
}

#[test]
fn interleaved_push_pop() {
    let (mut tx, mut rx) = new_with_sender::<u64>();

    let mut received = Vec::new();
    for i in 0..10 {
        tx.try_push(&mut rx, i * 2).unwrap();
        tx.try_push(&mut rx, i * 2 + 1).unwrap();
        while let Ok(value) = rx.try_pop() {
            received.push(value);
        }
    }

    while let Ok(value) = rx.try_pop() {
        received.push(value);
    }

    assert_eq!(received.len(), 20);
    received.sort();
    for i in 0..20 {
        assert_eq!(received[i], i as u64);
    }

    assert_eq!(rx.try_pop(), Err(PopError::Empty));
}

#[test]
fn batch_push_pop() {
    let (mut tx, mut rx) = new_with_sender::<u64>();

    let mut items: Vec<u64> = (0..50).collect();
    let pushed = tx
        .try_push_n(&mut rx, &mut items)
        .expect("bulk push should succeed");
    assert_eq!(pushed, 50);
    assert!(items.is_empty());

    let mut dst = [0u64; 100];
    let popped = rx.try_pop_n(&mut dst);
    assert_eq!(popped, 50);

    for i in 0..50 {
        assert_eq!(dst[i], i as u64);
    }
}

#[test]
fn stress_test_unbounded_expansion() {
    let (mut tx, mut rx) = new_with_sender::<u64>();

    let mut items: Vec<u64> = (0..10000).collect();
    let pushed = tx
        .try_push_n(&mut rx, &mut items)
        .expect("bulk push should succeed");
    assert_eq!(pushed, 10000);

    for i in 0..10000 {
        assert_eq!(rx.try_pop().unwrap(), i as u64, "item {} mismatch", i);
    }

    assert_eq!(rx.try_pop(), Err(PopError::Empty));
}

#[test]
fn producer_id_uniqueness() {
    let (tx1, mut rx) = new_with_sender::<u64>();
    let tx2 = rx.create_sender().unwrap();
    let tx3 = rx.create_sender().unwrap();

    assert_ne!(tx1.producer_id(), tx2.producer_id());
    assert_ne!(tx2.producer_id(), tx3.producer_id());
    assert_ne!(tx1.producer_id(), tx3.producer_id());
}

#[test]
fn receiver_count_tracking() {
    let (tx1, mut rx) = new_with_sender::<u64>();
    assert_eq!(rx.producer_count(), 1);

    let _tx2 = rx.create_sender().unwrap();
    assert_eq!(rx.producer_count(), 2);

    let _tx3 = rx.create_sender().unwrap();
    assert_eq!(rx.producer_count(), 3);

    tx1.close_channel(&mut rx);
    rx.close();

    assert_eq!(rx.producer_count(), 0);
}

#[test]
fn generator_follows_the_linear_congruence() {
    let mut rx = new::<u64>();
    rx.seed = 1;
    assert_eq!(rx.next(), 0x5_DEEC);
    assert_eq!(rx.seed, 0x5_DEEC_E678);
    rx.seed = 0;
    assert_eq!(rx.next(), 0);
    assert_eq!(rx.seed, 0xB);
}

#[test]
fn try_pop_with_id_names_the_producer() {
    let (mut tx, mut rx) = new_with_sender::<u64>();
    let mut tx2 = rx.create_sender().unwrap();
    assert_eq!(tx.producer_id(), 0);
    assert_eq!(tx2.producer_id(), 1);
    tx2.try_push(&mut rx, 7).unwrap();
    assert_eq!(rx.try_pop_with_id(), Ok((7, 1)));
    tx.try_push(&mut rx, 8).unwrap();
    assert_eq!(rx.try_pop_with_id(), Ok((8, 0)));
    assert_eq!(rx.try_pop_with_id(), Err(PopError::Empty));
}

#[test]
fn closed_channel_refuses_new_producers() {
    let (_tx, mut rx) = new_with_sender::<u64>();
    assert!(rx.close());
    assert!(rx.is_closed());
    assert!(matches!(rx.create_sender(), Err(PushError::Closed(()))));
}

#[test]
fn full_channel_refuses_new_producers() {
    let mut rx = new::<u64>();
    for _ in 0..MAX_PRODUCERS {
        rx.create_sender().unwrap();
    }
    assert_eq!(rx.producer_count(), MAX_PRODUCERS);
    assert!(matches!(rx.create_sender(), Err(PushError::Full(()))));
}

#[test]
fn reaped_slot_is_reused_by_the_next_producer() {
    let (tx, mut rx) = new_with_sender::<u64>();
    tx.close_channel(&mut rx);
    // The closed, drained queue is found and its slot freed.
    assert_eq!(rx.try_pop(), Err(PopError::Empty));
    assert_eq!(rx.producer_count(), 0);
    let tx2 = rx.create_sender().unwrap();
    assert_eq!(tx2.producer_id(), 0);
}

#[test]
fn push_room_reports_position_and_nodes() {
    let (mut tx, mut rx) = new_with_sender::<u64>();
    assert_eq!(tx.push_room(&rx), Some((0, 1)));
    tx.try_push(&mut rx, 1).unwrap();
    tx.try_push(&mut rx, 2).unwrap();
    assert_eq!(tx.push_room(&rx), Some((2, 1)));
    assert_eq!(rx.try_pop(), Ok(1));
    assert_eq!(tx.push_room(&rx), Some((2, 1)));
}

#[test]
fn single_producer_items_come_out_in_push_order() {
    let (mut tx, mut rx) = new_with_sender::<u64>();
    for i in 0..10u64 {
        tx.try_push(&mut rx, i).unwrap();
    }
    for i in 0..10u64 {
        assert_eq!(rx.try_pop(), Ok(i));
    }
    assert_eq!(rx.try_pop(), Err(PopError::Empty));
}
