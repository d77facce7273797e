use maniac::ticker::{
    avg_update_computable, base_tick_for, clamp_drift, interval_computable, intervals_computable, running_avg,
    unsigned_abs, TickService,
};
use std::time::Duration;

fn ms(n: u64) -> u128 {
    Duration::from_millis(n).as_nanos()
}

#[test]
fn test_multiple_handler_registrations() {
    let mut tick_service = TickService::new(ms(10));

    // The same handler registered twice gets two ids.
    let reg1 = tick_service.register(ms(10), vec![]);
    assert!(reg1.is_some(), "First registration should succeed");

    let reg2 = tick_service.register(ms(10), vec![Some(ms(10))]);
    assert!(reg2.is_some(), "Second registration should succeed");
    assert_ne!(reg1, reg2);

    tick_service.shutdown();
}

#[test]
fn test_dynamic_tick_duration_adjustment() {
    let mut tick_service = TickService::new(ms(20));

    let initial_duration = tick_service.current_tick_duration_ns();
    assert_eq!(initial_duration, 20_000_000);

    let _reg1 = tick_service.register(ms(10), vec![]);
    let adjusted_duration = tick_service.current_tick_duration_ns();
    assert_eq!(adjusted_duration, 10_000_000);

    let _reg2 = tick_service.register(ms(5), vec![Some(ms(10))]);
    let final_duration = tick_service.current_tick_duration_ns();
    assert_eq!(final_duration, 5_000_000);

    tick_service.shutdown();
}

#[test]
fn test_tick_duration_restoration_after_unregister() {
    let mut tick_service = TickService::new(ms(20));

    let reg1 = tick_service.register(ms(5), vec![]).unwrap();
    let _reg2 = tick_service.register(ms(10), vec![Some(ms(5))]).unwrap();

    assert_eq!(tick_service.current_tick_duration_ns(), 5_000_000);

    // Dropping the first registration unregisters it.
    assert!(tick_service.unregister(reg1, vec![Some(ms(5)), Some(ms(10))]));

    assert_eq!(tick_service.current_tick_duration_ns(), 10_000_000);

    tick_service.shutdown();
}

#[test]
fn handlers_are_called_on_multiples_of_their_interval() {
    let mut service = TickService::new(ms(5));
    let a = service.register(ms(5), vec![]).unwrap();
    let b = service.register(ms(10), vec![Some(ms(5))]).unwrap();
    let c = service.register(ms(20), vec![Some(ms(5)), Some(ms(10))]).unwrap();
    let live = vec![Some(ms(5)), Some(ms(10)), Some(ms(20))];
    assert_eq!(service.tick_handlers(0, 0, live.clone()), vec![(a, 0), (b, 0), (c, 0)]);
    assert_eq!(service.tick_handlers(1, 5, live.clone()), vec![(a, 1)]);
    assert_eq!(service.tick_handlers(2, 10, live.clone()), vec![(a, 2), (b, 1)]);
    assert_eq!(service.tick_handlers(3, 15, live.clone()), vec![(a, 3)]);
    assert_eq!(service.tick_handlers(4, 20, live.clone()), vec![(a, 4), (b, 2), (c, 1)]);
    let stats = service.handler_stats();
    assert_eq!(stats[1].missed_ticks, 2);
    assert_eq!(stats[2].missed_ticks, 3);
    assert_eq!(stats[0].last_tick_ns, 20);
}

#[test]
fn dead_handlers_are_dropped_and_the_base_tick_recomputed() {
    let mut service = TickService::new(ms(50));
    let a = service.register(ms(5), vec![]).unwrap();
    let b = service.register(ms(20), vec![Some(ms(5))]).unwrap();
    assert_eq!(service.current_tick_duration_ns(), 5_000_000);
    let calls = service.tick_handlers(0, 0, vec![None, Some(ms(20))]);
    assert_eq!(calls, vec![(b, 0)]);
    assert_eq!(service.handler_ids(), vec![b]);
    assert_eq!(service.current_tick_duration_ns(), 20_000_000);
    assert!(!service.unregister(a, vec![Some(ms(20))]));
    assert!(service.unregister(b, vec![Some(ms(20))]));
    assert_eq!(service.handler_count(), 0);
    assert_eq!(service.current_tick_duration_ns(), 50_000_000);
}

#[test]
fn loop_statistics_keep_running_averages_and_drift() {
    let mut service = TickService::new(ms(5));
    service.record_loop(100, 4_000, -30);
    service.record_loop(300, 6_000, 50);
    let stats = service.tick_stats();
    assert_eq!(stats.total_ticks, 2);
    assert_eq!(stats.avg_tick_loop_duration_ns, 200);
    assert_eq!(stats.avg_tick_loop_sleep_ns, 5_000);
    assert_eq!(stats.max_drift_ns, 50);
    assert_eq!(stats.total_drift_ns, 20);
}

#[test]
fn handler_run_statistics() {
    let mut service = TickService::new(ms(5));
    let a = service.register(ms(5), vec![]).unwrap();
    service.record_handler_runs(&vec![(a, 10), (a, 20), (99, 7)]);
    let stats = service.handler_stats();
    assert_eq!(stats[0].total_ticks, 2);
    assert_eq!(stats[0].avg_tick_loop_duration_ns, 15);
}

#[test]
fn running_average_truncates_toward_zero() {
    assert_eq!(running_avg(0, 42, 0), 42);
    assert_eq!(running_avg(10, 13, 1), 11);
    assert_eq!(running_avg(10, 7, 1), 9);
    assert_eq!(running_avg(100, 0, 2), 67);
}

#[test]
fn drift_is_clamped_to_the_signed_range() {
    assert_eq!(clamp_drift(true, 5), 5);
    assert_eq!(clamp_drift(false, 5), -5);
    assert_eq!(clamp_drift(true, u128::MAX), i64::MAX);
    assert_eq!(clamp_drift(false, u128::MAX), i64::MIN);
    assert_eq!(unsigned_abs(i64::MIN), 1u64 << 63);
    assert_eq!(unsigned_abs(-7), 7);
}

#[test]
fn start_and_shutdown_happen_once() {
    let mut service = TickService::new(ms(1));
    assert!(service.start());
    assert!(!service.start());
    assert!(service.shutdown());
    assert!(!service.shutdown());
    assert!(service.is_shutdown());
}

#[test]
fn handler_failures_are_counted_only_when_logged() {
    let mut service = TickService::new(ms(1));
    assert!(!service.note_handler_panic());
    service.set_panic_logging(true);
    assert!(service.is_panic_logging_enabled());
    assert!(service.note_handler_panic());
    assert_eq!(service.error_stats().0, 1);
    service.set_shutdown_timeout(u128::MAX);
    assert_eq!(service.shutdown_timeout_ns(), u64::MAX);
}

#[test]
fn base_tick_is_minimum_of_default_and_handlers() {
    let mut tick_service = TickService::new(ms(5));
    assert!(tick_service.register(ms(10), vec![]).is_some());
    assert_eq!(tick_service.current_tick_duration_ns(), 5_000_000);
}

#[test]
fn base_tick_and_interval_checks() {
    assert_eq!(base_tick_for(&vec![Some(ms(10)), None, Some(ms(20))], ms(5)), 5_000_000);
    assert_eq!(base_tick_for(&vec![Some(ms(2)), None], ms(5)), 2_000_000);
    assert_eq!(base_tick_for(&vec![None], ms(5)), 5_000_000);
    assert!(interval_computable(10, 10));
    assert!(interval_computable(25, 10));
    assert!(!interval_computable(25, 0));
    assert!(!interval_computable(u64::MAX, 1));
    assert!(intervals_computable(&vec![Some(ms(10)), Some(ms(20))], ms(5)));
    assert!(!intervals_computable(&vec![Some(0), Some(ms(20))], ms(5)));
    assert!(intervals_computable(&vec![Some(0), None], ms(5)));
    assert!(avg_update_computable(7, 100, 0));
    assert!(avg_update_computable(10, 20, 3));
    assert!(!avg_update_computable(10, 20, i64::MAX as u64));
}

#[test]
fn counts_and_next_id_are_reported() {
    let mut svc = TickService::new(ms(5));
    assert_eq!(svc.next_handler_id(), 1);
    assert_eq!(svc.default_tick_duration_ns(), ms(5));
    assert_eq!(svc.register(ms(10), vec![]), Some(1));
    assert_eq!(svc.next_handler_id(), 2);
}
