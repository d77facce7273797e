use maniac::timer_wheel::TimerWheel;
use maniac::wheel::{CompactionConfig, SingleWheel, Spoke, TimerWheelError};

#[test]
fn test_spoke_insert_remove() {
    let mut spoke: Spoke<u32> = Spoke::new(16);
    let slot1 = spoke.insert(100, 42);
    let slot2 = spoke.insert(200, 43);
    assert_eq!(spoke.active_count(), 2);
    let generation = spoke.generation();
    let data = spoke.remove(slot1, generation);
    assert_eq!(data, Some(42));
    assert_eq!(spoke.active_count(), 1);
    let data = spoke.remove(slot2, generation + 1);
    assert_eq!(data, None);
    assert_eq!(spoke.active_count(), 1);
    let data = spoke.remove(slot2, generation);
    assert_eq!(data, Some(43));
    assert_eq!(spoke.active_count(), 0);
}

#[test]
fn test_spoke_compaction() {
    let config = CompactionConfig {
        min_capacity_for_compaction: 8,
        compaction_ratio: 4,
        target_capacity_multiplier: 2,
    };
    let mut spoke: Spoke<u32> = Spoke::new(64);
    for i in 0..32 {
        spoke.insert(i as u64 * 100, i);
    }
    assert_eq!(spoke.active_count(), 32);
    let generation = spoke.generation();
    for i in 0..30 {
        spoke.remove(i, generation);
    }
    assert_eq!(spoke.active_count(), 2);
    assert!(spoke.should_compact(&config));
    let remapping = spoke.compact(&config);
    assert!(!remapping.is_empty());
    assert_eq!(spoke.active_count(), 2);
    assert!(spoke.capacity() < 64);
}

#[test]
fn test_single_wheel_schedule_cancel() {
    let mut wheel: SingleWheel<u32> = SingleWheel::new(1 << 20, 1024);
    wheel.set_start_time_ns(0);
    let (spoke, slot, generation) = wheel.schedule_with_data(100_000_000, 42).unwrap();
    assert_eq!(wheel.timer_count(), 1);
    let data = wheel.cancel(spoke, slot, generation).unwrap();
    assert_eq!(data, 42);
    assert_eq!(wheel.timer_count(), 0);
}

#[test]
fn test_single_wheel_poll() {
    let mut wheel: SingleWheel<&str> = SingleWheel::new(1 << 20, 1024);
    wheel.set_start_time_ns(0);
    wheel.schedule_with_data(10_000_000, "timer1").unwrap();
    wheel.schedule_with_data(20_000_000, "timer2").unwrap();
    let mut output = Vec::new();
    let count = wheel.poll(15_000_000, 0, 15, 100, &mut output);
    assert_eq!(count, 1);
    assert_eq!(output[0].4, "timer1");
}

#[test]
fn test_timer_wheel_l0_scheduling() {
    let mut wheel: TimerWheel<u32> = TimerWheel::new(0);
    wheel.set_start_time_ns(0);
    let timer_id = wheel.schedule_timer(500_000_000, 42).unwrap();
    assert_eq!(wheel.l0_timer_count(), 1);
    assert_eq!(wheel.l1_timer_count(), 0);
    assert_eq!(wheel.l2_timer_count(), 0);
    let data = wheel.cancel_timer(timer_id).unwrap();
    assert_eq!(data, 42);
}

#[test]
fn test_timer_wheel_l1_scheduling() {
    let mut wheel: TimerWheel<u32> = TimerWheel::new(0);
    wheel.set_start_time_ns(0);
    let timer_id = wheel.schedule_timer(5_000_000_000, 42).unwrap();
    assert_eq!(wheel.l0_timer_count(), 0);
    assert_eq!(wheel.l1_timer_count(), 1);
    assert_eq!(wheel.l2_timer_count(), 0);
    let data = wheel.cancel_timer(timer_id).unwrap();
    assert_eq!(data, 42);
}

#[test]
fn test_timer_wheel_l2_scheduling() {
    let mut wheel: TimerWheel<u32> = TimerWheel::new(0);
    wheel.set_start_time_ns(0);
    let deadline = 2_000_000_000_000u64;
    let timer_id = wheel.schedule_timer(deadline, 42).unwrap();
    assert_eq!(wheel.l0_timer_count(), 0);
    assert_eq!(wheel.l1_timer_count(), 0);
    assert_eq!(wheel.l2_timer_count(), 1);
    let data = wheel.cancel_timer(timer_id).unwrap();
    assert_eq!(data, 42);
}

#[test]
fn test_timer_wheel_poll() {
    let mut wheel: TimerWheel<&str> = TimerWheel::new(0);
    wheel.set_start_time_ns(0);
    wheel.schedule_timer(10_000_000, "fast").unwrap();
    wheel.schedule_timer(5_000_000_000, "medium").unwrap();
    let mut output = Vec::new();
    wheel.poll(20_000_000, 100, &mut output);
    assert_eq!(output.len(), 1);
    assert_eq!(output[0].2, "fast");
    output.clear();
    wheel.poll(6_000_000_000, 100, &mut output);
    assert_eq!(output.len(), 1);
    assert_eq!(output[0].2, "medium");
}

#[test]
fn test_timer_wheel_deadline_too_far() {
    let mut wheel: TimerWheel<u32> = TimerWheel::new(0);
    wheel.set_start_time_ns(0);
    let result = wheel.schedule_timer(u64::MAX / 2, 42);
    assert!(matches!(result, Err(TimerWheelError::DeadlineTooFar)));
}

#[test]
fn test_timer_id_encoding() {
    let test_cases = [
        (0u8, 0usize, 0usize, 0u32),
        (1, 100, 200, 300),
        (2, 1023, 1000000, 65535),
        (2, 4095, 0xFFFFFFF, 0x3FFFFF),
    ];
    for (level, spoke, slot, generation) in test_cases {
        let id = TimerWheel::<()>::encode_timer_id(level, spoke, slot, generation);
        let (l, s, sl, g) = TimerWheel::<()>::decode_timer_id(id).unwrap();
        assert_eq!(level, l);
        assert_eq!(spoke & 0xFFF, s);
        assert_eq!(slot & 0xFFFFFFF, sl);
        assert_eq!(generation & 0x3FFFFF, g);
    }
}

#[test]
fn test_stable_timer_ids() {
    let mut wheel: TimerWheel<u32> = TimerWheel::new(0);
    wheel.set_start_time_ns(0);
    let timer_id = wheel.schedule_timer(5_000_000_000, 42).unwrap();
    let mut output = Vec::new();
    wheel.poll(1_000_000_000, 100, &mut output);
    assert!(output.is_empty());
    let data = wheel.cancel_timer(timer_id).unwrap();
    assert_eq!(data, 42);
}

#[test]
fn test_schedule_timer_best_fit() {
    let mut wheel: TimerWheel<u32> = TimerWheel::new(0);
    wheel.set_start_time_ns(0);
    let (timer_id, wheel_deadline) = wheel.schedule_timer_best_fit(500_000_000, 1).unwrap();
    assert_eq!(wheel_deadline, 500_000_000);
    assert_eq!(wheel.l0_timer_count(), 1);
    wheel.cancel_timer(timer_id).unwrap();
    let (timer_id, wheel_deadline) = wheel.schedule_timer_best_fit(5_000_000_000, 2).unwrap();
    assert_eq!(wheel_deadline, 5_000_000_000);
    assert_eq!(wheel.l1_timer_count(), 1);
    wheel.cancel_timer(timer_id).unwrap();
    let l2_deadline = 2_000_000_000_000u64;
    let (timer_id, wheel_deadline) = wheel.schedule_timer_best_fit(l2_deadline, 3).unwrap();
    assert_eq!(wheel_deadline, l2_deadline);
    assert_eq!(wheel.l2_timer_count(), 1);
    wheel.cancel_timer(timer_id).unwrap();
}

#[test]
fn test_schedule_timer_best_fit_cascading() {
    let mut wheel: TimerWheel<u32> = TimerWheel::new(0);
    wheel.set_start_time_ns(0);
    let far_deadline = wheel.l2_coverage_ns() * 2;
    let (_timer_id, wheel_deadline) = wheel.schedule_timer_best_fit(far_deadline, 42).unwrap();
    assert!(wheel_deadline < far_deadline);
    let expected_wheel_deadline = wheel.l2_coverage_ns() - wheel.l2_tick_resolution_ns();
    assert_eq!(wheel_deadline, expected_wheel_deadline);
    assert_eq!(wheel.l2_timer_count(), 1);
    let mut output = Vec::new();
    wheel.poll(wheel_deadline + 1, 100, &mut output);
    assert_eq!(output.len(), 1);
    assert_eq!(output[0].2, 42);
}

#[test]
fn test_schedule_timer_best_fit_past_deadline() {
    let mut wheel: TimerWheel<u32> = TimerWheel::new(0);
    wheel.set_start_time_ns(0);
    wheel.set_now_ns(1_000_000_000);
    let (_timer_id, wheel_deadline) = wheel.schedule_timer_best_fit(500_000_000, 42).unwrap();
    assert!(wheel_deadline > 500_000_000);
    assert_eq!(wheel.l0_timer_count(), 1);
    let mut output = Vec::new();
    wheel.poll(wheel_deadline, 100, &mut output);
    assert_eq!(output.len(), 1);
    assert_eq!(output[0].2, 42);
}

#[test]
fn schedule_refuses_zero_and_stale_deadlines() {
    let mut wheel: TimerWheel<u32> = TimerWheel::new(0);
    wheel.set_start_time_ns(1_000);
    assert!(matches!(wheel.schedule_timer(0, 1), Err(TimerWheelError::InvalidDeadline)));
    assert!(matches!(wheel.schedule_timer(999, 1), Err(TimerWheelError::InvalidDeadline)));
    assert_eq!(wheel.timer_count(), 0);
}

#[test]
fn cancel_twice_reports_missing_timer() {
    let mut wheel: TimerWheel<u32> = TimerWheel::new(0);
    wheel.set_start_time_ns(0);
    let id = wheel.schedule_timer(500_000_000, 7).unwrap();
    assert_eq!(wheel.cancel_timer(id).unwrap(), 7);
    assert!(wheel.cancel_timer(id).is_err());
    let bad = TimerWheel::<u32>::encode_timer_id(3, 0, 0, 0);
    assert!(matches!(wheel.cancel_timer(bad), Err(TimerWheelError::InvalidTimerId)));
}

#[test]
fn next_deadline_reports_earliest_of_the_wheels() {
    let mut wheel: TimerWheel<u32> = TimerWheel::new(0);
    wheel.set_start_time_ns(0);
    assert_eq!(wheel.next_deadline(), None);
    wheel.schedule_timer(5_000_000_000, 1).unwrap();
    wheel.schedule_timer(300_000_000, 2).unwrap();
    assert_eq!(wheel.next_deadline(), Some(300_000_000));
}

#[test]
fn poll_respects_expiry_limit() {
    let mut wheel: TimerWheel<u32> = TimerWheel::new(0);
    wheel.set_start_time_ns(0);
    for i in 0..5u32 {
        wheel.schedule_timer(1_000_000 + i as u64, i).unwrap();
    }
    let mut output = Vec::new();
    let n = wheel.poll(10_000_000, 3, &mut output);
    assert_eq!(n, 3);
    assert_eq!(output.len(), 3);
    assert_eq!(wheel.timer_count(), 2);
}

#[test]
fn from_duration_scales_each_level_by_the_wheel_size() {
    let wheel: TimerWheel<u32> = TimerWheel::from_duration(1 << 20, 1024, 3);
    assert_eq!(wheel.l0_coverage_ns(), 1 << 30);
    assert_eq!(wheel.l1_coverage_ns(), 1 << 40);
    assert_eq!(wheel.l2_coverage_ns(), 1 << 50);
}

#[test]
fn test_memory_stats() {
    let mut wheel: TimerWheel<u32> = TimerWheel::new(0);
    wheel.set_start_time_ns(0);

    let stats = wheel.memory_stats();
    assert_eq!(stats.total_active(), 0);

    wheel.schedule_timer(100_000_000, 1).unwrap();
    wheel.schedule_timer(5_000_000_000, 2).unwrap();

    let stats = wheel.memory_stats();
    assert_eq!(stats.total_active(), 2);
    assert_eq!(stats.l0.active_timers, 1);
    assert_eq!(stats.l1.active_timers, 1);
}

#[test]
fn memory_stats_count_slots_of_every_spoke() {
    let wheel: TimerWheel<u32> = TimerWheel::new(0);
    let stats = wheel.memory_stats();
    assert_eq!(stats.l0.num_spokes, 1024);
    assert_eq!(stats.total_capacity(), stats.l0.total_slot_capacity + stats.l1.total_slot_capacity + stats.l2.total_slot_capacity);
    assert_eq!(stats.l0.total_slot_capacity % 1024, 0);
}

#[test]
fn slightly_past_deadline_fires_on_the_next_poll() {
    let mut w: TimerWheel<u32> = TimerWheel::new(0);
    w.set_start_time_ns(0);
    let mut out = Vec::new();
    w.poll(3 << 20, 100, &mut out);
    assert!(w.schedule_timer(2 << 20, 7).is_ok());
    out.clear();
    assert_eq!(w.poll((3 << 20) + 1, 100, &mut out), 1);
    assert_eq!(out[0].2, 7);
    assert_eq!(w.timer_count(), 0);
}
