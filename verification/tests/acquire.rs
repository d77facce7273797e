use maniac::acquire::{PollResult, RunContext};
use maniac::summary::Summary;
use maniac::task_signals::TaskSignals;
use maniac::timer_wheel::TimerWheel;
use maniac::waker::WorkerWaker;
use maniac::worker::Worker;

fn arena(leaf_count: usize, signals_per_leaf: usize) -> (Summary, TaskSignals) {
    let wakers: Vec<WorkerWaker> = (0..2).map(|_| WorkerWaker::new()).collect();
    (
        Summary::new(leaf_count, signals_per_leaf, wakers, 2),
        TaskSignals::new(leaf_count, signals_per_leaf),
    )
}

fn worker() -> Worker {
    Worker::new(0, TimerWheel::new(0))
}

#[test]
fn schedule_sets_bit_and_summary_once() {
    let (mut summary, mut signals) = arena(4, 2);
    assert!(signals.schedule(&mut summary, 2, 65));
    assert_eq!(signals.load(2, 1), 1u64 << 1);
    assert_eq!(summary.leaf_word(2), 1u64 << 1);
    assert!(!signals.schedule(&mut summary, 2, 64));
    assert_eq!(signals.load(2, 1), 0b11);
    assert_eq!(summary.leaf_word(2), 1u64 << 1);
}

#[test]
fn acquire_takes_the_only_task_and_clears_summary() {
    let (mut summary, mut signals) = arena(4, 2);
    let mut w = worker();
    signals.schedule(&mut summary, 1, 70);
    assert_eq!(w.try_acquire_task(&mut summary, &mut signals, 1), Some(70));
    assert_eq!(signals.load(1, 1), 0);
    assert_eq!(summary.leaf_word(1), 0);
    assert_eq!(w.stats.signal_polls, 1);
    assert_eq!(w.try_acquire_task(&mut summary, &mut signals, 1), None);
    assert_eq!(w.stats.empty_scans, 1);
}

#[test]
fn acquire_drains_every_task_of_a_leaf() {
    let (mut summary, mut signals) = arena(2, 3);
    let mut w = worker();
    let slots = [0usize, 5, 64, 130, 191];
    for &slot in slots.iter() {
        signals.schedule(&mut summary, 0, slot);
    }
    let mut taken = Vec::new();
    while let Some(slot) = w.try_acquire_task(&mut summary, &mut signals, 0) {
        taken.push(slot);
    }
    taken.sort();
    assert_eq!(taken, slots.to_vec());
    assert_eq!(summary.leaf_word(0), 0);
    for signal in 0..3 {
        assert_eq!(signals.load(0, signal), 0);
    }
}

#[test]
fn acquire_keeps_summary_bit_while_signal_has_tasks() {
    let (mut summary, mut signals) = arena(1, 1);
    let mut w = worker();
    signals.schedule(&mut summary, 0, 3);
    signals.schedule(&mut summary, 0, 9);
    let first = w.try_acquire_task(&mut summary, &mut signals, 0).unwrap();
    assert!(first == 3 || first == 9);
    assert_eq!(summary.leaf_word(0), 1);
    let second = w.try_acquire_task(&mut summary, &mut signals, 0).unwrap();
    assert_eq!(first + second, 12);
    assert_eq!(summary.leaf_word(0), 0);
}

#[test]
fn acquire_on_other_leaf_changes_nothing() {
    let (mut summary, mut signals) = arena(3, 1);
    let mut w = worker();
    signals.schedule(&mut summary, 2, 0);
    assert_eq!(w.try_acquire_task(&mut summary, &mut signals, 0), None);
    assert_eq!(signals.load(2, 0), 1);
    assert_eq!(summary.leaf_word(2), 1);
}

#[test]
fn set_partition_caps_length_at_one() {
    let mut w = worker();
    w.set_partition(4, 8);
    assert_eq!((w.partition_start, w.partition_len), (4, 1));
    w.set_partition(5, 5);
    assert_eq!((w.partition_start, w.partition_len), (5, 0));
    w.set_partition(6, 2);
    assert_eq!((w.partition_start, w.partition_len), (6, 0));
}

#[test]
fn partition_scans_see_only_the_first_leaf_of_the_range() {
    let (mut summary, mut signals) = arena(4, 1);
    let mut w = worker();
    signals.schedule(&mut summary, 1, 7);
    w.set_partition(0, 4);
    assert_eq!(w.try_partition_linear(&mut summary, &mut signals), None);
    assert_eq!(w.try_partition_random(&mut summary, &mut signals), None);
    w.set_partition(1, 3);
    assert_eq!(w.try_partition_linear(&mut summary, &mut signals), Some((1, 7)));
    signals.schedule(&mut summary, 1, 8);
    assert_eq!(w.try_partition_random(&mut summary, &mut signals), Some((1, 8)));
}

#[test]
fn any_partition_linear_finds_first_leaf_with_task() {
    let (mut summary, mut signals) = arena(6, 2);
    let mut w = worker();
    signals.schedule(&mut summary, 4, 100);
    signals.schedule(&mut summary, 2, 1);
    assert_eq!(w.try_any_partition_linear(&mut summary, &mut signals, 6), Some((2, 1)));
    assert_eq!(w.stats.leaf_steal_attempts, 3);
    assert_eq!(w.stats.leaf_steal_successes, 1);
    assert_eq!(w.try_any_partition_linear(&mut summary, &mut signals, 6), Some((4, 100)));
    assert_eq!(w.stats.leaf_steal_attempts, 8);
    assert_eq!(w.try_any_partition_linear(&mut summary, &mut signals, 6), None);
    assert_eq!(w.stats.leaf_steal_attempts, 14);
    assert_eq!(w.stats.leaf_steal_successes, 2);
}

#[test]
fn any_partition_linear_stops_at_given_leaf_count() {
    let (mut summary, mut signals) = arena(4, 1);
    let mut w = worker();
    signals.schedule(&mut summary, 3, 0);
    assert_eq!(w.try_any_partition_linear(&mut summary, &mut signals, 3), None);
    assert_eq!(w.stats.leaf_steal_attempts, 3);
    assert_eq!(signals.load(3, 0), 1);
}

#[test]
fn any_partition_random_on_single_leaf_takes_its_task() {
    let (mut summary, mut signals) = arena(1, 1);
    let mut w = worker();
    signals.schedule(&mut summary, 0, 42);
    assert_eq!(w.try_any_partition_random(&mut summary, &mut signals, 1), Some((0, 42)));
    assert_eq!(w.stats.leaf_steal_attempts, 1);
    assert_eq!(w.stats.leaf_steal_successes, 1);
    assert_eq!(w.try_any_partition_random(&mut summary, &mut signals, 1), None);
    assert_eq!(w.stats.leaf_steal_attempts, 2);
}

#[test]
fn any_partition_random_result_is_a_scheduled_task() {
    let (mut summary, mut signals) = arena(5, 1);
    let mut w = worker();
    signals.schedule(&mut summary, 3, 11);
    match w.try_any_partition_random(&mut summary, &mut signals, 5) {
        Some(found) => {
            assert_eq!(found, (3, 11));
            assert_eq!(signals.load(3, 0), 0);
        }
        None => assert_eq!(signals.load(3, 0), 1 << 11),
    }
}

#[test]
fn next_u64_follows_the_generator_step() {
    let mut w = worker();
    w.seed = 1;
    let r = w.next_u64();
    let expected_seed = (1u64.wrapping_mul(0x5DEECE66D).wrapping_add(0xB)) & 0xFFFF_FFFF_FFFF;
    assert_eq!(w.seed, expected_seed);
    assert_eq!(r, expected_seed >> 16);
}

#[test]
fn probe_stays_in_the_workers_block() {
    let (mut summary, mut signals) = arena(8, 1);
    let mut w = Worker::new(1, TimerWheel::new(1));
    for leaf in 0..8 {
        signals.schedule(&mut summary, leaf, leaf);
    }
    for _ in 0..8 {
        if let Some((leaf, slot)) = w.probe_partition_leaf(&mut summary, &mut signals, 2) {
            assert!((4..8).contains(&leaf));
            assert_eq!(slot, leaf);
        }
    }
    for leaf in 0..4 {
        assert_eq!(signals.load(leaf, 0), 1u64 << leaf);
    }
}

#[test]
fn probe_with_one_leaf_block_takes_its_task() {
    let (mut summary, mut signals) = arena(3, 1);
    let mut w = Worker::new(2, TimerWheel::new(2));
    signals.schedule(&mut summary, 2, 5);
    assert_eq!(w.probe_partition_leaf(&mut summary, &mut signals, 3), Some((2, 5)));
    assert_eq!(w.probe_partition_leaf(&mut summary, &mut signals, 3), None);
}

#[test]
fn run_context_records_pinning() {
    let mut ctx = RunContext::new();
    assert!(!ctx.should_exit_generator());
    ctx.mark_pinned();
    assert!(ctx.should_exit_generator());
}

#[test]
fn settle_yielded_task_schedules_it_again() {
    let (mut summary, mut signals) = arena(2, 1);
    let mut w = worker();
    let mut ctx = RunContext::new();
    signals.schedule(&mut summary, 1, 3);
    let (leaf, slot) = (1, w.try_acquire_task(&mut summary, &mut signals, 1).unwrap());
    assert_eq!(summary.leaf_word(1), 0);
    let drop = w.settle_poll(&mut summary, &mut signals, leaf, slot, PollResult::Pending, true, false, &mut ctx);
    assert!(!drop);
    assert_eq!(w.stats.yielded_count, 1);
    assert_eq!(signals.load(1, 0), 1 << 3);
    assert_eq!(summary.leaf_word(1), 1);
    assert!(!ctx.should_exit_generator());
    assert_eq!(w.try_acquire_task(&mut summary, &mut signals, 1), Some(3));
}

#[test]
fn settle_waiting_and_completed_tasks() {
    let (mut summary, mut signals) = arena(1, 1);
    let mut w = worker();
    let mut ctx = RunContext::new();
    assert!(!w.settle_poll(&mut summary, &mut signals, 0, 0, PollResult::Pending, false, false, &mut ctx));
    assert_eq!(w.stats.waiting_count, 1);
    assert_eq!(signals.load(0, 0), 0);
    assert!(w.settle_poll(&mut summary, &mut signals, 0, 0, PollResult::Ready, false, true, &mut ctx));
    assert_eq!(w.stats.completed_count, 1);
    assert!(ctx.should_exit_generator());
    assert!(!w.settle_poll(&mut summary, &mut signals, 0, 0, PollResult::Gone, false, false, &mut ctx));
    assert_eq!(w.stats.completed_count, 2);
    w.stats.completed_count = u64::MAX;
    assert!(w.settle_poll(&mut summary, &mut signals, 0, 0, PollResult::Ready, false, false, &mut ctx));
    assert_eq!(w.stats.completed_count, u64::MAX);
}

#[test]
fn acquire_on_idle_summary_word_counts_an_empty_scan() {
    let (mut summary, mut signals) = arena(2, 2);
    let mut w = worker();
    assert_eq!(w.try_acquire_task(&mut summary, &mut signals, 1), None);
    assert_eq!(w.stats.empty_scans, 1);
    assert_eq!(w.stats.leaf_summary_checks, 1);
}
