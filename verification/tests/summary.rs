use maniac::summary::Summary;
use maniac::waker::WorkerWaker;
use std::collections::HashSet;

fn setup_tree(leaf_count: usize, signals_per_leaf: usize) -> Summary {
    let wakers: Vec<WorkerWaker> = (0..4).map(|_| WorkerWaker::new()).collect();
    Summary::new(leaf_count, signals_per_leaf, wakers, 4)
}

#[test]
fn mark_signal_active_updates_root_and_leaf() {
    let mut tree = setup_tree(4, 4);
    assert!(tree.mark_signal_active(1, 1));
    assert_eq!(tree.leaf_word(1), 1u64 << 1);
    assert!(!tree.mark_signal_active(1, 1));
    assert!(tree.mark_signal_inactive(1, 1));
    assert_eq!(tree.leaf_word(1), 0);
}

#[test]
fn mark_signal_inactive_if_empty_clears_summary() {
    let mut tree = setup_tree(1, 2);
    assert!(tree.mark_signal_active(0, 1));
    let signal: u64 = 0;
    tree.mark_signal_inactive_if_empty(0, 1, signal);
    assert_eq!(tree.leaf_word(0), 0);
}

#[test]
fn reserve_task_in_leaf_exhausts_all_bits() {
    let mut tree = setup_tree(1, 1);
    let mut bits = Vec::with_capacity(64);
    for _ in 0..64 {
        let bit = tree.reserve_task_in_leaf(0, 0).expect("expected free bit");
        bits.push(bit);
    }
    bits.sort_unstable();
    assert_eq!(bits, (0..64).collect::<Vec<_>>());
    assert!(tree.reserve_task_in_leaf(0, 0).is_none(), "all bits should be exhausted");
    for bit in bits {
        tree.release_task_in_leaf(0, 0, bit as usize);
    }
}

#[test]
fn reserve_task_round_robin_visits_all_leaves() {
    let mut tree = setup_tree(4, 1);
    let mut observed = Vec::with_capacity(16);
    for _ in 0..16 {
        let (leaf, sig, bit) = tree.reserve_task().expect("reserve task");
        observed.push(leaf);
        tree.release_task_in_leaf(leaf, sig, bit as usize);
    }
    observed.sort_unstable();
    observed.dedup();
    assert_eq!(observed.len(), 4, "Should visit all 4 leaves");
}

#[test]
fn reserve_and_release_task_updates_reservations() {
    let mut tree = setup_tree(4, 1);
    let handle = tree.reserve_task().expect("task handle");
    assert_eq!(handle.1, 0);
    let reservation = tree.reservation_word(handle.0, handle.1);
    assert_ne!(reservation, 0);
    tree.release_task_in_leaf(handle.0, handle.1, handle.2 as usize);
    let reservation = tree.reservation_word(handle.0, handle.1);
    assert_eq!(reservation, 0);
}

#[test]
fn clear_leaf_bits_clears_specific_bits() {
    let mut tree = setup_tree(1, 3);
    tree.mark_signal_active(0, 0);
    tree.mark_signal_active(0, 1);
    tree.mark_signal_active(0, 2);
    assert_eq!(tree.leaf_word(0), 0b111);
    assert!(tree.mark_signal_inactive(0, 1));
    assert_eq!(tree.leaf_word(0), 0b101);
    assert!(tree.mark_signal_inactive(0, 0));
    assert_eq!(tree.leaf_word(0), 0b100);
    assert!(tree.mark_signal_inactive(0, 2));
    assert_eq!(tree.leaf_word(0), 0);
}

#[test]
fn bit_operations_are_idempotent() {
    let mut tree = setup_tree(1, 1);
    assert!(tree.mark_signal_active(0, 0));
    assert_eq!(tree.leaf_word(0), 1);
    assert!(!tree.mark_signal_active(0, 0));
    assert_eq!(tree.leaf_word(0), 1);
    assert!(tree.mark_signal_inactive(0, 0));
    assert_eq!(tree.leaf_word(0), 0);
    assert!(!tree.mark_signal_inactive(0, 0));
    assert_eq!(tree.leaf_word(0), 0);
}

#[test]
fn reservation_exhaustion_and_wraparound() {
    let mut tree = setup_tree(1, 1);
    let mut reservations = Vec::new();
    for _ in 0..64 {
        let bit = tree.reserve_task_in_leaf(0, 0).expect("Should get reservation");
        reservations.push(bit);
    }
    assert!(tree.reserve_task_in_leaf(0, 0).is_none());
    let released_bits: Vec<u8> = (0..32).map(|i| reservations[i * 2]).collect();
    let still_reserved: HashSet<u8> = (0..32).map(|i| reservations[i * 2 + 1]).collect();
    for &bit in &released_bits {
        tree.release_task_in_leaf(0, 0, bit as usize);
    }
    let new_reservations: Vec<_> = (0..32)
        .map(|_| tree.reserve_task_in_leaf(0, 0).expect("Should get reservation"))
        .collect();
    let mut seen = HashSet::new();
    for &new_bit in &new_reservations {
        assert!(seen.insert(new_bit), "Got duplicate reservation: {}", new_bit);
    }
    for &new_bit in &new_reservations {
        assert!(!still_reserved.contains(&new_bit), "Got reservation for still-reserved bit: {}", new_bit);
    }
    for &bit in &reservations {
        tree.release_task_in_leaf(0, 0, bit as usize);
    }
    for &bit in &new_reservations {
        tree.release_task_in_leaf(0, 0, bit as usize);
    }
}

#[test]
fn round_robin_signal_distribution() {
    let mut tree = setup_tree(1, 4);
    let mut observed_signals = Vec::new();
    for _ in 0..8 {
        let (leaf, signal, _) = tree.reserve_task().expect("reserve task");
        observed_signals.push(signal);
        tree.release_task_in_leaf(leaf, signal, 0);
    }
    observed_signals.sort_unstable();
    let unique_signals: HashSet<_> = observed_signals.iter().collect();
    assert!(unique_signals.len() >= 1, "Should use at least 1 signal");
}

#[test]
fn compute_partition_owner_distribution() {
    let tree = setup_tree(10, 1);
    for leaf_idx in 0..10 {
        let owner = tree.compute_partition_owner(leaf_idx, 3);
        assert!(owner < 3, "Owner {} should be < 3", owner);
    }
    for leaf_idx in 0..10 {
        let owner = tree.compute_partition_owner(leaf_idx, 1);
        assert_eq!(owner, 0, "All leaves should belong to worker 0");
    }
    let tree5 = setup_tree(5, 1);
    for leaf_idx in 0..5 {
        let owner = tree5.compute_partition_owner(leaf_idx, 5);
        assert_eq!(owner, leaf_idx, "Each leaf should have unique owner");
    }
}

#[test]
fn partition_boundaries_are_correct() {
    let tree = setup_tree(7, 1);
    assert_eq!(tree.partition_start_for_worker(0, 3), 0);
    assert_eq!(tree.partition_end_for_worker(0, 3), 3);
    assert_eq!(tree.partition_start_for_worker(1, 3), 3);
    assert_eq!(tree.partition_end_for_worker(1, 3), 5);
    assert_eq!(tree.partition_start_for_worker(2, 3), 5);
    assert_eq!(tree.partition_end_for_worker(2, 3), 7);
}

#[test]
fn global_to_local_leaf_conversion() {
    let tree = setup_tree(6, 2);
    assert_eq!(tree.global_to_local_leaf_idx(0, 0, 2), Some(0));
    assert_eq!(tree.global_to_local_leaf_idx(1, 0, 2), Some(1));
    assert_eq!(tree.global_to_local_leaf_idx(2, 0, 2), Some(2));
    assert_eq!(tree.global_to_local_leaf_idx(3, 0, 2), None);
    assert_eq!(tree.global_to_local_leaf_idx(3, 1, 2), Some(0));
    assert_eq!(tree.global_to_local_leaf_idx(4, 1, 2), Some(1));
    assert_eq!(tree.global_to_local_leaf_idx(5, 1, 2), Some(2));
    assert_eq!(tree.global_to_local_leaf_idx(2, 1, 2), None);
}

#[test]
fn partition_computation_edge_cases() {
    let tree = setup_tree(1, 1);
    assert_eq!(tree.compute_partition_owner(0, 1), 0);
    assert_eq!(tree.partition_start_for_worker(0, 1), 0);
    assert_eq!(tree.partition_end_for_worker(0, 1), 1);
    assert_eq!(tree.global_to_local_leaf_idx(0, 0, 1), Some(0));
    assert_eq!(tree.compute_partition_owner(0, 0), 0);
    assert_eq!(tree.partition_start_for_worker(0, 0), 0);
    assert_eq!(tree.partition_end_for_worker(0, 0), 0);
}

#[test]
fn boundary_conditions_for_indices() {
    let mut tree = setup_tree(2, 3);
    assert!(tree.mark_signal_active(0, 0));
    assert!(tree.mark_signal_active(1, 2));
    assert!(tree.reserve_task_in_leaf(0, 0).is_some());
    assert!(tree.reserve_task_in_leaf(1, 2).is_some());
    assert!(!tree.mark_signal_active(2, 0));
    assert!(!tree.mark_signal_inactive(2, 0));
    assert!(tree.reserve_task_in_leaf(2, 0).is_none());
    assert!(!tree.mark_signal_active(0, 3));
    assert!(!tree.mark_signal_inactive(0, 3));
    assert!(tree.reserve_task_in_leaf(0, 3).is_none());
}

#[test]
fn reserve_task_reports_none_when_every_slot_is_taken() {
    let mut tree = setup_tree(2, 1);
    let mut taken = Vec::new();
    for _ in 0..128 {
        taken.push(tree.reserve_task().expect("free slot"));
    }
    assert!(tree.reserve_task().is_none());
    let (leaf, sig, bit) = taken[5];
    tree.release_task_in_leaf(leaf, sig, bit as usize);
    assert_eq!(tree.reserve_task(), Some((leaf, sig, bit)));
}

#[test]
fn partition_owner_lies_in_its_partition() {
    let tree = setup_tree(10, 1);
    for workers in 1..=12usize {
        for leaf in 0..10usize {
            let owner = tree.compute_partition_owner(leaf, workers);
            let start = tree.partition_start_for_worker(owner, workers);
            let end = tree.partition_end_for_worker(owner, workers);
            assert!(start <= leaf && leaf < end);
        }
    }
}
