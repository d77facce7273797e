use maniac::scheduler::{SchedulerStats, TimerBatch, TimerSchedule, WorkerSnapshot, WorkerStats};
use maniac::timer::{CancelOutcome, DelayStep, Timer, TimerDelay, TimerHandle, TimerState};
use maniac::timer_wheel::TimerWheel;

#[test]
fn timer_schedule_commit_and_reset() {
    let mut timer = Timer::new();
    assert_eq!(timer.state(), TimerState::Idle);
    let handle = timer.prepare(7, 2);
    assert_eq!(handle.task_id(), 7);
    assert_eq!(timer.worker_id(), Some(2));
    timer.commit_schedule(99, 1_000, 800);
    assert!(timer.is_scheduled());
    assert_eq!(timer.target_deadline_ns(), 1_000);
    assert_eq!(timer.wheel_deadline_ns(), 800);
    assert_eq!(timer.deadline_ns(), 800);
    assert!(timer.needs_reschedule(900));
    assert!(!timer.needs_reschedule(700));
    assert!(!timer.needs_reschedule(1_000));
    timer.commit_reschedule(100, 1_000);
    assert_eq!(timer.timer_id(), 100);
    assert!(!timer.mark_cancelled(5));
    assert!(timer.mark_cancelled(100));
    assert_eq!(timer.state(), TimerState::Cancelled);
    assert_eq!(timer.worker_id(), None);
    timer.reset();
    assert_eq!(timer.state(), TimerState::Idle);
}

#[test]
fn delay_steps_follow_the_timer() {
    let mut timer = Timer::default();
    let delay = timer.delay(500);
    assert_eq!(delay.poll_step(&mut timer, 0), DelayStep::Schedule);
    timer.prepare(1, 0);
    timer.commit_schedule(3, 1_000, 600);
    assert_eq!(delay.poll_step(&mut timer, 100), DelayStep::Pending);
    assert_eq!(delay.poll_step(&mut timer, 700), DelayStep::Reschedule);
    assert_eq!(delay.poll_step(&mut timer, 1_000), DelayStep::Ready);
    assert_eq!(timer.state(), TimerState::Idle);
    let d = TimerDelay::new(5);
    assert_eq!(d.delay_ns, 5);
}

#[test]
fn schedule_and_cancel_on_a_wheel() {
    let mut wheel: TimerWheel<TimerHandle> = TimerWheel::new(0);
    wheel.set_start_time_ns(0);
    let mut timer = Timer::new();
    let target = timer.schedule_in(&mut wheel, 4, 0, 2_000_000);
    assert_eq!(target, Some(2_000_000));
    assert!(timer.is_scheduled());
    assert_eq!(wheel.timer_count(), 1);
    assert_eq!(timer.cancel(None, &mut wheel), CancelOutcome::NotCancelled);
    match timer.cancel(Some(1), &mut wheel) {
        CancelOutcome::PostToOwner { owner, .. } => assert_eq!(owner, 0),
        other => panic!("unexpected {:?}", other),
    }
    assert_eq!(timer.cancel(Some(0), &mut wheel), CancelOutcome::Cancelled);
    assert_eq!(timer.state(), TimerState::Cancelled);
    assert_eq!(wheel.timer_count(), 0);
}

#[test]
fn reschedule_keeps_target() {
    let mut wheel: TimerWheel<TimerHandle> = TimerWheel::new(0);
    wheel.set_start_time_ns(0);
    let mut timer = Timer::new();
    timer.schedule_in(&mut wheel, 4, 0, 2_000_000).unwrap();
    assert!(!timer.reschedule_in(&mut wheel, 4, 1));
    assert!(timer.reschedule_in(&mut wheel, 4, 0));
    assert_eq!(timer.target_deadline_ns(), 2_000_000);
    assert_eq!(wheel.timer_count(), 2);
}

#[test]
fn timer_batches_keep_order() {
    let h = TimerHandle::new(1, 2, 3);
    let a = TimerSchedule::new(h, 10);
    let b = TimerSchedule::new(h, 20);
    assert_eq!(a.deadline_ns(), 10);
    assert_eq!(a.handle().timer_id(), 3);
    let (_, d) = b.into_parts();
    assert_eq!(d, 20);
    let batch = TimerBatch::new(vec![a, b]);
    assert_eq!(batch.len(), 2);
    assert!(!batch.is_empty());
    assert_eq!(batch.iter()[1].deadline_ns(), 20);
    assert!(TimerBatch::empty().is_empty());
    assert_eq!(batch.into_vec().len(), 2);
}

fn snapshot(worker_id: usize, polled: u64, fires: u64) -> WorkerSnapshot {
    let mut stats = WorkerStats::default();
    stats.tasks_polled = polled;
    stats.timer_fires = fires;
    stats.generators_created = 5;
    WorkerSnapshot { worker_id, permits: 0, sleepers: 0, status: 0, partition_summary: 0, stats }
}

#[test]
fn totals_sum_each_counter() {
    let stats = SchedulerStats { worker_count: 2, per_worker: vec![snapshot(0, 3, 1), snapshot(1, 4, 2)] };
    let t = stats.totals();
    assert_eq!(t.tasks_polled, 7);
    assert_eq!(t.timer_fires, 3);
    assert_eq!(t.completed_count, 0);
    assert_eq!(t.generators_created, 10);
}

#[test]
fn timer_state_from_number() {
    assert_eq!(TimerState::from(0u8), TimerState::Idle);
    assert_eq!(TimerState::from(1u8), TimerState::Scheduled);
    assert_eq!(TimerState::from(2u8), TimerState::Cancelled);
    assert_eq!(TimerState::from(9u8), TimerState::Idle);
}
