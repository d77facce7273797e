use maniac::run_loop::{
    after_tick_step, exhaustive_step, run_once_step, run_step, ExhaustiveStage, GeneratorYieldReason, PassEvent,
    ProbeAction, RunAction, RunLoopState,
};
use maniac::scheduler::Scheduler;
use maniac::mpsc::new_with_sender;
use maniac::scheduler::{TimerBatch, TimerSchedule, WorkerMessage};
use maniac::timer::{CancelOutcome, Timer, TimerHandle};
use maniac::timer_wheel::TimerWheel;
use maniac::waker::WorkerWaker;
use maniac::worker::{Worker, MAX_PARK_DURATION_NS};

fn worker(id: u32) -> Worker {
    Worker::new(id, TimerWheel::new(id))
}

#[test]
fn has_work_reads_status_summary_and_permits() {
    let w = worker(0);
    let mut waker = WorkerWaker::new();
    assert!(!w.has_work(&waker));
    waker.release(1);
    assert!(w.has_work(&waker));
    let mut waker = WorkerWaker::new();
    waker.mark_active(3);
    assert!(w.has_work(&waker));
    let mut waker = WorkerWaker::new();
    waker.mark_yield();
    assert!(w.has_work(&waker));
}

#[test]
fn park_duration_without_timers_is_capped() {
    let mut w = worker(0);
    assert_eq!(w.calculate_park_duration(None), Some(MAX_PARK_DURATION_NS));
    assert_eq!(w.calculate_park_duration(Some(1_000)), Some(1_000));
    assert_eq!(w.calculate_park_duration(Some(u128::MAX)), Some(MAX_PARK_DURATION_NS));
}

#[test]
fn park_duration_follows_the_next_timer() {
    let mut w = worker(0);
    assert_eq!(w.enqueue_timer_entry(5_000_000, TimerHandle::new(1, 0, 0)).is_some(), true);
    assert_eq!(w.calculate_park_duration(None), Some(5_000_000));
    assert_eq!(w.calculate_park_duration(Some(2_000)), Some(2_000));
    w.timer_wheel.set_now_ns(6_000_000);
    assert_eq!(w.calculate_park_duration(None), Some(0));
}

#[test]
fn timer_requests_for_other_workers_are_dropped() {
    let mut w = worker(2);
    assert!(!w.handle_timer_schedule(TimerSchedule::new(TimerHandle::new(1, 3, 0), 10_000_000)));
    assert!(w.handle_timer_schedule(TimerSchedule::new(TimerHandle::new(1, 2, 0), 10_000_000)));
    assert_eq!(w.timer_wheel.l0_timer_count(), 1);
}

#[test]
fn expired_timers_are_handed_back() {
    let mut w = worker(1);
    w.enqueue_timer_entry(1_000_000, TimerHandle::new(7, 1, 0)).unwrap();
    w.enqueue_timer_entry(2_000_000, TimerHandle::new(8, 9, 0)).unwrap();
    w.enqueue_timer_entry(900_000_000, TimerHandle::new(9, 1, 0)).unwrap();
    w.timer_wheel.set_now_ns(3_000_000);
    let fired = w.poll_timers();
    assert_eq!(fired.len(), 1);
    assert_eq!(fired[0].task_id(), 7);
    assert_eq!(w.timer_output.len(), 2);
    w.record_timer_fires(fired.len() as u64);
    assert_eq!(w.stats().timer_fires, 1);
}

#[test]
fn best_fit_entries_report_their_deadline() {
    let mut w = worker(0);
    let (id, deadline) = w.enqueue_timer_entry_best_fit(500_000_000, TimerHandle::new(1, 0, 0)).unwrap();
    assert_ne!(id, 0);
    assert_eq!(deadline, 500_000_000);
}

#[test]
fn cancel_on_own_wheel_and_remote_requests() {
    let mut w = worker(0);
    let mut timer = Timer::new();
    assert!(timer.schedule_in(&mut w.timer_wheel, 5, 0, 5_000_000).is_some());
    assert_eq!(w.cancel_timer(&mut timer), CancelOutcome::Cancelled);
    assert_eq!(w.cancel_remote_timer(0, 42), Some((0, 0, 42)));
    assert_eq!(w.cancel_remote_timer(1, 42), None);
}

#[test]
fn messages_are_handled_until_the_channel_is_empty() {
    let (mut tx, mut rx) = new_with_sender::<WorkerMessage>();
    let mut w = worker(0);
    let mut waker = WorkerWaker::new();
    let mut posts = Vec::new();
    tx.try_push(&mut rx, WorkerMessage::ScheduleTimer { timer: TimerSchedule::new(TimerHandle::new(1, 0, 0), 10_000_000) })
        .unwrap();
    tx.try_push(&mut rx, WorkerMessage::CancelTimer { worker_id: 0, timer_id: 77 }).unwrap();
    tx.try_push(
        &mut rx,
        WorkerMessage::ScheduleBatch {
            timers: TimerBatch::new(vec![
                TimerSchedule::new(TimerHandle::new(2, 0, 0), 20_000_000),
                TimerSchedule::new(TimerHandle::new(3, 5, 0), 20_000_000),
            ]),
        },
    )
    .unwrap();
    // Without a status bit nothing is read.
    assert!(!w.process_messages(&mut rx, &waker, &mut posts));
    waker.mark_active(0);
    assert!(w.process_messages(&mut rx, &waker, &mut posts));
    assert_eq!(posts, vec![(0, 0, 77)]);
    assert_eq!(w.timer_wheel.l0_timer_count(), 2);
    assert!(!w.shutdown);
}

#[test]
fn graceful_shutdown_handles_queued_messages_first() {
    let (mut tx, mut rx) = new_with_sender::<WorkerMessage>();
    let mut w = worker(0);
    let mut posts = Vec::new();
    tx.try_push(&mut rx, WorkerMessage::ScheduleTimer { timer: TimerSchedule::new(TimerHandle::new(1, 0, 0), 10_000_000) })
        .unwrap();
    tx.try_push(&mut rx, WorkerMessage::Shutdown).unwrap();
    tx.try_push(&mut rx, WorkerMessage::ScheduleTimer { timer: TimerSchedule::new(TimerHandle::new(2, 0, 0), 10_000_000) })
        .unwrap();
    assert!(w.handle_message(&mut rx, WorkerMessage::GracefulShutdown, &mut posts));
    assert!(w.shutdown);
    assert_eq!(w.timer_wheel.l0_timer_count(), 1);
    let mut w2 = worker(0);
    assert!(w2.handle_message(&mut rx, WorkerMessage::Noop, &mut posts));
    assert!(w2.handle_message(&mut rx, WorkerMessage::Shutdown, &mut posts));
    assert!(w2.shutdown);
}

#[test]
fn schedule_timer_without_a_task_sets_nothing() {
    let mut w = worker(0);
    let mut timer = Timer::new();
    let mut posts = Vec::new();
    assert_eq!(w.schedule_timer(&mut timer, None, 1_000, &mut posts), None);
    assert!(!timer.is_scheduled());
    assert_eq!(w.timer_wheel.timer_count(), 0);
    assert!(posts.is_empty());
}

#[test]
fn schedule_timer_sets_target_from_wheel_time() {
    let mut w = worker(2);
    w.timer_wheel.set_now_ns(1_000);
    let mut timer = Timer::new();
    let mut posts = Vec::new();
    assert_eq!(w.schedule_timer(&mut timer, Some(9), 5_000_000, &mut posts), Some(5_001_000));
    assert!(timer.is_scheduled());
    assert_eq!(timer.target_deadline_ns(), 5_001_000);
    assert_eq!(timer.worker_id(), Some(2));
    assert_eq!(timer.task_id, 9);
    assert_eq!(w.timer_wheel.timer_count(), 1);
    assert!(posts.is_empty());
}

#[test]
fn schedule_timer_again_replaces_the_old_entry() {
    let mut w = worker(0);
    let mut timer = Timer::new();
    let mut posts = Vec::new();
    let first = w.schedule_timer(&mut timer, Some(1), 2_000_000, &mut posts).unwrap();
    let first_id = timer.timer_id();
    let second = w.schedule_timer(&mut timer, Some(1), 9_000_000, &mut posts).unwrap();
    assert_eq!((first, second), (2_000_000, 9_000_000));
    assert_ne!(timer.timer_id(), first_id);
    assert_eq!(w.timer_wheel.timer_count(), 1);
    assert!(posts.is_empty());
}

#[test]
fn schedule_timer_owned_elsewhere_posts_a_cancel() {
    let mut other = worker(3);
    let mut timer = Timer::new();
    assert!(timer.schedule_in(&mut other.timer_wheel, 4, 3, 1_000_000).is_some());
    let old_id = timer.timer_id();
    let mut w = worker(1);
    let mut posts = Vec::new();
    assert_eq!(w.schedule_timer(&mut timer, Some(4), 3_000_000, &mut posts), Some(3_000_000));
    assert_eq!(posts, vec![(1, 3, old_id)]);
    assert_eq!(timer.worker_id(), Some(1));
}

#[test]
fn schedule_timer_caps_huge_delays() {
    let mut w = worker(0);
    w.timer_wheel.set_now_ns(10);
    let mut timer = Timer::new();
    let mut posts = Vec::new();
    assert_eq!(w.schedule_timer(&mut timer, Some(1), u128::MAX, &mut posts), Some(u64::MAX));
    assert_eq!(timer.target_deadline_ns(), u64::MAX);
    assert!(timer.wheel_deadline_ns() < u64::MAX);
}

#[test]
fn run_loop_steps_follow_the_pass_order() {
    assert_eq!(run_once_step(3, true, true), ProbeAction::ExitGenerator);
    assert_eq!(run_once_step(3, false, false), ProbeAction::Probe);
    assert_eq!(run_once_step(16, true, false), ProbeAction::Done);
    assert_eq!(exhaustive_step(ExhaustiveStage::PollTimers, false, true), ExhaustiveStage::ProcessMessages);
    assert_eq!(exhaustive_step(ExhaustiveStage::ProcessMessages, false, true), ExhaustiveStage::Finished);
    assert_eq!(exhaustive_step(ExhaustiveStage::TryPartitionAgain, false, false), ExhaustiveStage::StealAny);
    assert_eq!(exhaustive_step(ExhaustiveStage::TryPartitionAgain, true, false), ExhaustiveStage::Finished);
    let mut st = RunLoopState { now_ns: 5 };
    let ev = PassEvent { shutdown: false, progress: true, pinned: false, now_ns: 9 };
    assert_eq!(run_step(&mut st, ev), RunAction::TickPass);
    assert_eq!(st.now_ns, 9);
    let ev = PassEvent { shutdown: false, progress: false, pinned: false, now_ns: 9 };
    assert_eq!(run_step(&mut st, ev), RunAction::IdlePass);
    let ev = PassEvent { shutdown: true, progress: false, pinned: true, now_ns: 10 };
    assert_eq!(run_step(&mut st, ev), RunAction::Shutdown);
    assert_eq!(st.now_ns, 9);
}

#[test]
fn preempted_task_goes_to_the_yield_queue() {
    let mut w = worker(0);
    let mut waker = WorkerWaker::new();
    let mut queue = Vec::new();
    assert!(w.settle_generator_exit(&mut waker, &mut queue, GeneratorYieldReason::Preempted, Some((1, 2)), false));
    assert_eq!(queue, vec![(1, 2)]);
    assert_eq!(w.stats.preempts, 1);
    assert_eq!(w.stats.yielded_count, 1);
    assert!(w.settle_generator_exit(&mut waker, &mut queue, GeneratorYieldReason::Cooperative, Some((3, 4)), false));
    assert_eq!(queue.len(), 1);
    assert!(w.settle_generator_exit(&mut waker, &mut queue, GeneratorYieldReason::Cooperative, None, false));
    assert_eq!(w.stats.generators_dropped, 1);
    assert!(!w.settle_generator_exit(&mut waker, &mut queue, GeneratorYieldReason::Shutdown, None, false));
    assert_eq!(w.stats.generators_dropped, 2);
}

#[test]
fn exhaustive_pass_ends_with_a_yield_steal_and_tick_pass_result_is_not_counted() {
    assert_eq!(exhaustive_step(ExhaustiveStage::StealAny, false, false), ExhaustiveStage::StealYield);
    assert_eq!(exhaustive_step(ExhaustiveStage::StealAny, true, false), ExhaustiveStage::Finished);
    assert_eq!(exhaustive_step(ExhaustiveStage::StealAny, false, true), ExhaustiveStage::Finished);
    assert_eq!(exhaustive_step(ExhaustiveStage::StealYield, false, false), ExhaustiveStage::Finished);
    assert_eq!(after_tick_step(false), RunAction::IdlePass);
    assert_eq!(after_tick_step(true), RunAction::Continue);
}

#[test]
fn yield_steal_takes_the_oldest_tasks_of_the_next_busy_worker() {
    let mut s = Scheduler::new(3, 1_000_000);
    assert_eq!(s.try_yield_steal(1, 1, 7), (2, false));
    s.yield_queues[1] = vec![(0, 1), (0, 2), (0, 3)];
    assert_eq!(s.try_yield_steal(0, 2, 2), (1, true));
    assert_eq!(s.yield_queues[0], vec![(0, 1), (0, 2)]);
    assert_eq!(s.yield_queues[1], vec![(0, 3)]);
    assert_eq!(s.pop_yielded(0), Some((0, 1)));
    assert_eq!(s.pop_yielded(2), None);
}

#[test]
fn worker_steals_a_yielded_task() {
    let mut s = Scheduler::new(2, 1_000_000);
    let mut w = worker(0);
    assert_eq!(w.try_steal_yielded(&mut s), None);
    assert_eq!(w.stats.steal_successes, 0);
    s.yield_queues[1] = vec![(4, 5), (6, 7)];
    assert_eq!(w.try_steal_yielded(&mut s), Some((4, 5)));
    assert_eq!(w.stats.steal_successes, 1);
    assert_eq!(s.yield_queues[1], vec![(6, 7)]);
    assert!(s.yield_queues[0].is_empty());
}
