use maniac::executor::ExecutorConfig;
use maniac::partition::worker_partition;
use maniac::scheduler::{normalize_tick_duration_ns, JoinState, Scheduler, SpawnError, WorkerStats};
use maniac::ticker::TickService;

#[test]
fn tick_durations_are_rounded_up_to_powers_of_two() {
    assert_eq!(normalize_tick_duration_ns(0), 1);
    assert_eq!(normalize_tick_duration_ns(1), 1);
    assert_eq!(normalize_tick_duration_ns(1_000_000), 1 << 20);
    assert_eq!(normalize_tick_duration_ns(1 << 20), 1 << 20);
    assert_eq!(normalize_tick_duration_ns(1 << 63), 1 << 63);
}

#[test]
fn workers_get_contiguous_blocks_of_leaves() {
    assert_eq!(worker_partition(0, 4, 10), (0, 3));
    assert_eq!(worker_partition(1, 4, 10), (3, 6));
    assert_eq!(worker_partition(3, 4, 10), (9, 10));
    // Short of leaves: the last worker's block is empty.
    assert_eq!(worker_partition(3, 4, 5), (6, 5));
}

#[test]
fn executor_sizing_from_a_task_count() {
    let c = ExecutorConfig::with_max_tasks(4, 1 << 20);
    assert_eq!((c.worker_count, c.leaf_count, c.tasks_per_leaf), (4, 256, 4096));
    let c = ExecutorConfig::with_max_tasks(8, 100);
    assert_eq!((c.worker_count, c.leaf_count, c.tasks_per_leaf), (8, 8, 12));
    let c = ExecutorConfig::with_max_tasks(0, 0);
    assert_eq!((c.worker_count, c.leaf_count, c.tasks_per_leaf), (1, 1, 4096));
}

#[test]
fn scheduler_tracks_active_workers() {
    let mut s = Scheduler::new(3, 1_000_000);
    assert_eq!(s.tick_duration_ns, 1 << 20);
    assert_eq!(s.worker_count(), 3);
    s.set_worker_active(0, true);
    s.set_worker_active(2, true);
    assert_eq!(s.supervisor_health_check(0), vec![0, 2]);
    assert!(!s.worker_has_work(1));
    assert!(!s.worker_has_work(7));
    assert!(s.on_tick(200, 55));
    assert!(!s.on_tick(201, 56));
    assert_eq!(s.clock_ns(), 56);
    assert_eq!(s.worker_now_ns, vec![56, 56, 56]);
    assert_eq!(s.shutdown(), Some(vec![0, 2]));
    assert!(s.worker_has_work(0));
    assert!(!s.worker_has_work(1));
    assert_eq!(s.shutdown(), None);
}

#[test]
fn aggregate_stats_snapshot_each_worker() {
    let mut s = Scheduler::new(2, 1 << 20);
    let mut stats = WorkerStats::default();
    stats.tasks_polled = 9;
    s.store_worker_stats(1, stats);
    let agg = s.aggregate_stats();
    assert_eq!(agg.worker_count, 2);
    assert_eq!(agg.per_worker[1].worker_id, 1);
    assert_eq!(agg.per_worker[1].stats.tasks_polled, 9);
    assert_eq!(agg.per_worker[0].stats.tasks_polled, 0);
    let graceful = s.supervisor_graceful_shutdown();
    assert!(graceful.is_empty());
}

#[test]
fn join_state_hands_back_the_completed_value_once() {
    let mut join: JoinState<String> = JoinState::new();
    assert!(!join.is_ready());
    join.complete(String::from("done"));
    assert!(join.is_ready());
    assert_eq!(join.take_result(), "done");
    assert!(join.is_ready());
}

fn one_leaf_summary() -> maniac::summary::Summary {
    let wakers: Vec<maniac::waker::WorkerWaker> = vec![maniac::waker::WorkerWaker::new()];
    maniac::summary::Summary::new(1, 1, wakers, 1)
}

#[test]
fn spawn_is_refused_when_closed_or_shutting_down() {
    let mut summary = one_leaf_summary();
    let mut s = Scheduler::new(1, 1_000_000);
    assert_eq!(s.reserve_for_spawn(&mut summary, true), Err(SpawnError::Closed));
    s.shutdown = true;
    assert_eq!(s.reserve_for_spawn(&mut summary, false), Err(SpawnError::Closed));
    assert_eq!(summary.reservation_word(0, 0), 0);
}

#[test]
fn spawn_reserves_until_no_capacity_and_release_frees_a_slot() {
    let mut summary = one_leaf_summary();
    let mut s = Scheduler::new(1, 1_000_000);
    for _ in 0..64 {
        assert!(s.reserve_for_spawn(&mut summary, false).is_ok());
    }
    assert_eq!(summary.reservation_word(0, 0), u64::MAX);
    assert_eq!(s.total_tasks(), 64);
    assert_eq!(s.reserve_for_spawn(&mut summary, false), Err(SpawnError::NoCapacity));
    assert_eq!(s.total_tasks(), 64);
    s.release_task(&mut summary, 0, 0, 5);
    assert_eq!(s.total_tasks(), 63);
    assert_eq!(s.reserve_for_spawn(&mut summary, false), Ok((0, 0, 5)));
    assert_eq!(s.reserve_task(&mut summary, true), None);
    assert_eq!(s.total_tasks(), 64);
}

#[test]
fn reserved_tasks_are_counted_until_released() {
    let mut summary = one_leaf_summary();
    let mut s = Scheduler::new(2, 1_000_000);
    assert_eq!(s.total_tasks(), 0);
    let t = s.reserve_task(&mut summary, false).expect("free slot");
    assert_eq!(s.total_tasks(), 1);
    assert_eq!(s.reserve_task(&mut summary, true), None);
    assert_eq!(s.total_tasks(), 1);
    s.release_task(&mut summary, t.0, t.1, t.2);
    assert_eq!(s.total_tasks(), 0);
    assert_eq!(summary.reservation_word(0, 0), 0);
}

#[test]
fn scheduler_tick_handler_sets_the_base_tick() {
    let s = Scheduler::new(1, 1_000_000);
    let mut svc = TickService::new(5_000_000);
    assert_eq!(s.register_tick_handler(&mut svc, vec![]), Some(1));
    assert_eq!(svc.handler_count(), 1);
    assert_eq!(svc.current_tick_duration_ns(), 1_000_000);
    assert_eq!(s.tick_duration(), std::time::Duration::from_millis(1));
    assert_eq!(s.configured_tick_ns, 1_000_000);
    assert_eq!(s.tick_duration_ns, 1 << 20);
}
