use vstd::prelude::*;

use crate::mpsc::{
    drained_from, kept_or_reaped, lcg_iter, lcg_next, rounds_missed, sole_signalled, total_items, InnerState, Receiver, RND_ADDEND, RND_MASK,
    RND_MULTIPLIER,
};
use crate::scheduler::{TimerSchedule, WorkerHealthSnapshot, WorkerMessage, WorkerStats};
use crate::timer::{wheel_cancel_ok, CancelOutcome, Timer, TimerHandle, TimerState};
use crate::timer_wheel::{
    cancelled_state, l0_scan_start, level_swept, next_deadline_found, polled_item, tick_fits, tick_of, timer_scheduled, timer_scheduled_best_fit, TimerWheel,
    TimerWheelState,
};
use crate::waker::WorkerWaker;

verus! {

/// Most timers a worker expires in one pass.
pub const TIMER_EXPIRE_BUDGET: usize = 4096;

/// Longest park when no timer is pending (250 ms).
pub const MAX_PARK_DURATION_NS: u64 = 250_000_000;

/// The bookkeeping side of a worker: its timer wheel, the buffer its expired timers
/// are polled into, its counters, its shutdown flag, the seed of its generator and the
/// leaves of the task arena it scans first. Polling tasks and the I/O driver stay with
/// the caller.
pub struct Worker {
    pub worker_id: u32,
    pub timer_wheel: TimerWheel<TimerHandle>,
    pub timer_output: Vec<(u64, u64, TimerHandle)>,
    pub stats: WorkerStats,
    pub shutdown: bool,
    pub seed: u64,
    pub partition_start: usize,
    pub partition_len: usize,
}

/// Whether `b` has the timers, the identity, the shutdown flag and the partition of `a`.
pub open spec fn keeps_timers_and_partition(a: Worker, b: Worker) -> bool {
    &&& b.worker_id == a.worker_id
    &&& b.timer_wheel == a.timer_wheel
    &&& b.timer_output == a.timer_output
    &&& b.shutdown == a.shutdown
    &&& b.partition_start == a.partition_start
    &&& b.partition_len == a.partition_len
}

/// The handles of the polled timers that belong to worker `worker_id`, in order.
pub open spec fn own_handles(out: Seq<(u64, u64, TimerHandle)>, worker_id: u32) -> Seq<TimerHandle>
    decreases out.len(),
{
    if out.len() == 0 {
        seq![]
    } else {
        let rest = own_handles(out.drop_last(), worker_id);
        if out.last().2.worker_id == worker_id {
            rest.push(out.last().2)
        } else {
            rest
        }
    }
}

/// How long to park, in nanoseconds: until the next timer deadline when one is
/// pending (at once when it is due), at most the strategy's timeout; without a
/// pending timer the strategy's timeout, at most 250 ms.
pub open spec fn park_for(next_deadline: Option<u64>, now_ns: u64, timeout_ns: Option<u128>) -> u64 {
    match next_deadline {
        Some(d) => if d > now_ns {
            let t = (d - now_ns) as u64;
            match timeout_ns {
                Some(x) => if x < t {
                    x as u64
                } else {
                    t
                },
                None => t,
            }
        } else {
            0
        },
        None => match timeout_ns {
            Some(x) => if x < MAX_PARK_DURATION_NS {
                x as u64
            } else {
                MAX_PARK_DURATION_NS
            },
            None => MAX_PARK_DURATION_NS,
        },
    }
}

/// What handling a timer request from another worker does to this worker's wheel:
/// a request for another worker, or one that finds the wheel without room, is
/// dropped; otherwise the timer is scheduled at its deadline, and the result says
/// whether the wheel took it.
pub open spec fn timer_schedule_handled(
    o: TimerWheelState<TimerHandle>,
    worker_id: u32,
    timer: TimerSchedule,
    r: bool,
    f: TimerWheelState<TimerHandle>,
) -> bool {
    if timer.handle.worker_id != worker_id || !o.has_room() {
        !r && f == o
    } else {
        exists|res: Result<u64, crate::wheel::TimerWheelError>|
            timer_scheduled(o, timer.deadline_ns, timer.handle, res, f) && r == res is Ok
    }
}

/// One way a batch of timer requests can be handled: starting from `o`, request
/// `i` takes the wheel from `states[i]` to `states[i + 1]` with result
/// `results[i]`, ending in `f`; the batch's result says whether any was scheduled.
pub open spec fn batch_trace(
    o: TimerWheelState<TimerHandle>,
    worker_id: u32,
    timers: Seq<TimerSchedule>,
    states: Seq<TimerWheelState<TimerHandle>>,
    results: Seq<bool>,
    r: bool,
    f: TimerWheelState<TimerHandle>,
) -> bool {
    &&& states.len() == timers.len() + 1
    &&& results.len() == timers.len()
    &&& states[0] == o
    &&& states[timers.len() as int] == f
    &&& forall|i: int|
        0 <= i < timers.len() ==> #[trigger] timer_schedule_handled(states[i], worker_id, timers[i], results[i], states[i + 1])
    &&& r == results.contains(true)
}

/// What handling a batch of timer requests does: each is handled in order as a
/// single request is, and the result says whether any was scheduled.
pub open spec fn batch_handled(
    o: TimerWheelState<TimerHandle>,
    worker_id: u32,
    timers: Seq<TimerSchedule>,
    r: bool,
    f: TimerWheelState<TimerHandle>,
) -> bool {
    exists|states: Seq<TimerWheelState<TimerHandle>>, results: Seq<bool>|
        batch_trace(o, worker_id, timers, states, results, r, f)
}

/// What handling a message other than a shutdown does: timer requests are handled
/// (see `timer_schedule_handled` and `batch_handled`), a cancel request for this
/// worker is queued for posting, and a health report or a no-op changes nothing but
/// counts as progress.
pub open spec fn routine_handled(
    o: TimerWheelState<TimerHandle>,
    worker_id: u32,
    message: WorkerMessage,
    r: bool,
    f: TimerWheelState<TimerHandle>,
    posts_before: Seq<(u32, u32, u64)>,
    posts_after: Seq<(u32, u32, u64)>,
) -> bool {
    match message {
        WorkerMessage::ScheduleTimer { timer } => timer_schedule_handled(o, worker_id, timer, r, f)
            && posts_after == posts_before,
        WorkerMessage::ScheduleBatch { timers } => batch_handled(o, worker_id, timers.entries@, r, f) && posts_after
            == posts_before,
        WorkerMessage::CancelTimer { worker_id: w, timer_id } => {
            &&& r == (w == worker_id)
            &&& f == o
            &&& posts_after == if r {
                posts_before.push((worker_id, w, timer_id))
            } else {
                posts_before
            }
        },
        WorkerMessage::ReportHealth => r && f == o && posts_after == posts_before,
        WorkerMessage::Noop => r && f == o && posts_after == posts_before,
        WorkerMessage::GracefulShutdown => false,
        WorkerMessage::Shutdown => false,
    }
}

/// What a worker's message handling works on: its channel, its timer wheel, the
/// cancel requests it queued for posting and its shutdown flag.
pub struct MessageState {
    pub queue: InnerState<WorkerMessage>,
    pub wheel: TimerWheelState<TimerHandle>,
    pub posts: Seq<(u32, u32, u64)>,
    pub shutdown: bool,
}

/// Message `m` left the channel `q`, which became `q2`: it was the oldest item of
/// one producer's queue.
pub open spec fn message_taken(q: InnerState<WorkerMessage>, m: WorkerMessage, q2: InnerState<WorkerMessage>) -> bool {
    exists|pid: int| #[trigger] drained_from(q, pid, 1, seq![m], q2)
}

/// A routine message `m` taken from the channel and handled (see
/// `routine_handled`), from `a` to `b`.
pub open spec fn routine_step(worker_id: u32, a: MessageState, m: WorkerMessage, b: MessageState) -> bool {
    &&& message_taken(a.queue, m, b.queue)
    &&& !(m is Shutdown) && !(m is GracefulShutdown)
    &&& exists|r: bool| routine_handled(a.wheel, worker_id, m, r, b.wheel, a.posts, b.posts)
    &&& b.shutdown == a.shutdown
}

/// How a graceful shutdown's drain ends, from `a` to `b`: with a shutdown message
/// taken from the channel or with a pop that found nothing; the flag is then set.
pub open spec fn graceful_end(a: MessageState, b: MessageState) -> bool {
    &&& b.wheel == a.wheel
    &&& b.posts == a.posts
    &&& b.shutdown
    &&& kept_or_reaped(a.queue, b.queue) || exists|m: WorkerMessage|
        (m is Shutdown || m is GracefulShutdown) && #[trigger] message_taken(a.queue, m, b.queue)
}

/// A graceful shutdown's drain from `a` to `b`: the routine messages queued are
/// taken and handled in order (see `routine_step`) until the drain ends (see
/// `graceful_end`).
pub open spec fn graceful_drained(worker_id: u32, a: MessageState, b: MessageState) -> bool {
    exists|ss: Seq<MessageState>, ms: Seq<WorkerMessage>|
        ss.len() == ms.len() + 1 && ss[0] == a && (forall|i: int|
            0 <= i < ms.len() ==> #[trigger] routine_step(worker_id, ss[i], ms[i], ss[i + 1])) && graceful_end(
            ss.last(),
            b,
        )
}

/// What handling a message `m` already taken from the channel does, from `a` to
/// `b`: a shutdown sets the flag; a graceful one drains the channel first (see
/// `graceful_drained`); any other message is handled as `routine_handled` says.
pub open spec fn message_effect(worker_id: u32, a: MessageState, m: WorkerMessage, b: MessageState) -> bool {
    if m is Shutdown {
        b == MessageState { shutdown: true, ..a }
    } else if m is GracefulShutdown {
        graceful_drained(worker_id, a, b)
    } else {
        b.queue == a.queue && b.shutdown == a.shutdown && exists|r: bool|
            routine_handled(a.wheel, worker_id, m, r, b.wheel, a.posts, b.posts)
    }
}

/// One message taken from the channel and handled, from `a` to `b`.
pub open spec fn handled_step(worker_id: u32, a: MessageState, b: MessageState) -> bool {
    exists|m: WorkerMessage, q: InnerState<WorkerMessage>|
        #[trigger] message_taken(a.queue, m, q) && message_effect(worker_id, MessageState { queue: q, ..a }, m, b)
}

/// The timer, the wheel and the cancel messages posted after worker `worker_id` takes
/// a scheduled timer off before setting it again: from its own wheel the timer is
/// removed (and reset when the wheel found it); for another worker's wheel a cancel
/// message is posted to that worker. Anything else is left as it is.
pub open spec fn taken_off(
    worker_id: u32,
    t: Timer,
    w: TimerWheelState<TimerHandle>,
    posts: Seq<(u32, u32, u64)>,
) -> (Timer, TimerWheelState<TimerHandle>, Seq<(u32, u32, u64)>) {
    if t.state == TimerState::Scheduled && t.worker_id is Some {
        let owner = t.worker_id->0;
        if owner == worker_id {
            (
                if wheel_cancel_ok(w, t.timer_id) {
                    t.cleared(TimerState::Idle)
                } else {
                    t
                },
                cancelled_state(w, t.timer_id),
                posts,
            )
        } else {
            (t, w, posts.push((worker_id, owner, t.timer_id)))
        }
    } else {
        (t, w, posts)
    }
}

/// The target of a timer set `delay_ns` after `now_ns`: the delay capped at
/// `u64::MAX` nanoseconds, the sum saturating.
pub open spec fn timer_target(now_ns: u64, delay_ns: u128) -> u64 {
    let d: int = if delay_ns > u64::MAX as u128 {
        u64::MAX as int
    } else {
        delay_ns as int
    };
    if now_ns + d > u64::MAX {
        u64::MAX
    } else {
        (now_ns + d) as u64
    }
}

/// What worker `worker_id` setting timer `t` for task `task_id`, `delay_ns` from its
/// wheel's time, comes to: the old schedule is taken off (see `taken_off`), then the
/// timer is scheduled with the wheel's best fit toward its target; on success it is
/// scheduled with the wheel's id and deadline and the target is returned; when the
/// wheel refuses it or has no room it is reset.
pub open spec fn timer_set(
    worker_id: u32,
    t: Timer,
    task_id: u32,
    delay_ns: u128,
    w: TimerWheelState<TimerHandle>,
    posts: Seq<(u32, u32, u64)>,
    r: Option<u64>,
    ft: Timer,
    fw: TimerWheelState<TimerHandle>,
    fposts: Seq<(u32, u32, u64)>,
) -> bool {
    let w1 = taken_off(worker_id, t, w, posts).1;
    let target = timer_target(w1.now_ns, delay_ns);
    let handle = TimerHandle { task_id, worker_id, timer_id: 0 };
    let idle = Timer {
        state: TimerState::Idle,
        target_deadline_ns: 0,
        wheel_deadline_ns: 0,
        task_id,
        worker_id: None,
        timer_id: 0,
    };
    &&& fposts == taken_off(worker_id, t, w, posts).2
    &&& if !w1.has_room() {
        r is None && ft == idle && fw == w1
    } else {
        exists|res: Result<(u64, u64), crate::wheel::TimerWheelError>|
            #[trigger] timer_scheduled_best_fit(w1, target, handle, res, fw) && match res {
                Ok(p) => r == Some(target) && ft == (Timer {
                    state: TimerState::Scheduled,
                    target_deadline_ns: target,
                    wheel_deadline_ns: p.1,
                    task_id,
                    worker_id: Some(worker_id),
                    timer_id: p.0,
                }),
                Err(_) => r is None && ft == idle,
            }
    }
}

/// A timer request that was not scheduled left the wheel as it was.
proof fn lemma_unscheduled_keeps_wheel(
    o: TimerWheelState<TimerHandle>,
    worker_id: u32,
    timer: TimerSchedule,
    f: TimerWheelState<TimerHandle>,
)
    requires
        timer_schedule_handled(o, worker_id, timer, false, f),
    ensures
        f == o,
{
    if timer.handle.worker_id == worker_id && o.has_room() {
        let res = choose|res: Result<u64, crate::wheel::TimerWheelError>|
            timer_scheduled(o, timer.deadline_ns, timer.handle, res, f) && false == res is Ok;
        assert(timer_scheduled(o, timer.deadline_ns, timer.handle, res, f));
    }
}

/// The states of a trace whose steps all keep the state equal the first one.
proof fn lemma_steady_trace(states: Seq<TimerWheelState<TimerHandle>>, k: int)
    requires
        0 <= k < states.len(),
        forall|i: int| 0 <= i < states.len() - 1 ==> #[trigger] states[i + 1] == states[i],
    ensures
        states[k] == states[0],
    decreases k,
{
    if k > 0 {
        lemma_steady_trace(states, k - 1);
        assert(states[(k - 1) + 1] == states[k - 1]);
    }
}

/// A batch of timer requests none of which was scheduled left the wheel as it was.
proof fn lemma_unscheduled_batch_keeps_wheel(
    o: TimerWheelState<TimerHandle>,
    worker_id: u32,
    timers: Seq<TimerSchedule>,
    f: TimerWheelState<TimerHandle>,
)
    requires
        batch_handled(o, worker_id, timers, false, f),
    ensures
        f == o,
{
    let (states, results) = choose|states: Seq<TimerWheelState<TimerHandle>>, results: Seq<bool>|
        batch_trace(o, worker_id, timers, states, results, false, f);
    assert forall|i: int| 0 <= i < states.len() - 1 implies #[trigger] states[i + 1] == states[i] by {
        assert(timer_schedule_handled(states[i], worker_id, timers[i], results[i], states[i + 1]));
        if results[i] {
            assert(results.contains(true));
        }
        lemma_unscheduled_keeps_wheel(states[i], worker_id, timers[i], states[i + 1]);
    }
    lemma_steady_trace(states, timers.len() as int);
}

/// A message other than a shutdown that made no progress changed neither the wheel
/// nor the posted cancel messages.
proof fn lemma_no_progress_keeps(
    o: TimerWheelState<TimerHandle>,
    worker_id: u32,
    message: WorkerMessage,
    f: TimerWheelState<TimerHandle>,
    posts_before: Seq<(u32, u32, u64)>,
    posts_after: Seq<(u32, u32, u64)>,
)
    requires
        routine_handled(o, worker_id, message, false, f, posts_before, posts_after),
    ensures
        f == o,
        posts_after == posts_before,
{
    match message {
        WorkerMessage::ScheduleTimer { timer } => {
            lemma_unscheduled_keeps_wheel(o, worker_id, timer, f);
        },
        WorkerMessage::ScheduleBatch { timers } => {
            lemma_unscheduled_batch_keeps_wheel(o, worker_id, timers.entries@, f);
        },
        _ => {},
    }
}

impl Worker {
    /// A running worker with id `worker_id` and timer wheel `timer_wheel`.
    pub fn new(worker_id: u32, timer_wheel: TimerWheel<TimerHandle>) -> (w: Self)
        ensures
            w.worker_id == worker_id,
            w.timer_wheel@ == timer_wheel@,
            w.timer_output@.len() == 0,
            !w.shutdown,
            w.partition_start == 0,
            w.partition_len == 0,
    {
        Worker {
            worker_id,
            timer_wheel,
            timer_output: Vec::new(),
            stats: WorkerStats::default(),
            shutdown: false,
            seed: crate::rng::random_seed(),
            partition_start: 0,
            partition_len: 0,
        }
    }

    /// Advances the worker's generator, the same 48-bit linear congruential step as the
    /// channel consumer's, and returns the high bits of the new seed.
    pub fn next_u64(&mut self) -> (r: u64)
        ensures
            final(self).seed == lcg_next(old(self).seed),
            r == final(self).seed >> 16u64,
            final(self).stats == old(self).stats,
            keeps_timers_and_partition(*old(self), *final(self)),
    {
        let next_seed = self.seed.wrapping_mul(RND_MULTIPLIER).wrapping_add(RND_ADDEND) & RND_MASK;
        self.seed = next_seed;
        next_seed >> 16
    }

    /// Gives the worker the leaves `partition_start..partition_end` of the arena. As the
    /// scheduler has it, the worker scans at most one of them: the range's length
    /// capped at 1.
    pub fn set_partition(&mut self, partition_start: usize, partition_end: usize)
        ensures
            final(self).partition_start == partition_start,
            final(self).partition_len == if partition_end > partition_start {
                1usize
            } else {
                0usize
            },
            final(self).worker_id == old(self).worker_id,
            final(self).timer_wheel == old(self).timer_wheel,
            final(self).timer_output == old(self).timer_output,
            final(self).stats == old(self).stats,
            final(self).shutdown == old(self).shutdown,
            final(self).seed == old(self).seed,
    {
        let span = partition_end.saturating_sub(partition_start);
        self.partition_start = partition_start;
        self.partition_len = if span < 1 {
            span
        } else {
            1
        };
    }

    /// The worker's counters.
    pub fn stats(&self) -> (r: &WorkerStats)
        ensures
            *r == self.stats,
    {
        &self.stats
    }

    /// The wheel's current time.
    pub fn now_ns(&self) -> (r: u64)
        ensures
            r == self.timer_wheel@.now_ns,
    {
        self.timer_wheel.now_ns()
    }

    /// Whether the worker has something to do, as its waker shows: a status bit, a
    /// summary bit, or a permit left over.
    pub fn has_work(&self, waker: &WorkerWaker) -> (r: bool)
        ensures
            r == (waker@.status != 0 || waker@.status & crate::waker::STATUS_SUMMARY_MASK != 0 || waker@.permits > 0),
    {
        let status = waker.status();
        if status != 0 {
            return true;
        }
        let summary = waker.snapshot_summary();
        if summary != 0 {
            return true;
        }
        if waker.permits() > 0 {
            return true;
        }
        false
    }

    /// How long the worker may park, in nanoseconds, given its wait strategy's
    /// timeout (`timeout_ns`, none for parking until woken): see `park_for`, with the
    /// next deadline the wheel reports.
    pub fn calculate_park_duration(&mut self, timeout_ns: Option<u128>) -> (r: Option<u64>)
        requires
            old(self).timer_wheel.wf(),
        ensures
            final(self).timer_wheel.wf(),
            exists|nd: Option<u64>|
                next_deadline_found(old(self).timer_wheel@, nd, final(self).timer_wheel@) && r == Some(
                    park_for(nd, old(self).timer_wheel@.now_ns, timeout_ns),
                ),
            final(self).worker_id == old(self).worker_id,
            final(self).timer_output@ == old(self).timer_output@,
            final(self).stats == old(self).stats,
            final(self).shutdown == old(self).shutdown,
    {
        let now_ns = self.timer_wheel.now_ns();
        let next = self.timer_wheel.next_deadline();
        let ghost nd = next;
        let r = match next {
            Some(next_deadline_ns) => {
                if next_deadline_ns > now_ns {
                    let timer_duration_ns = next_deadline_ns - now_ns;
                    match timeout_ns {
                        Some(x) => if x < timer_duration_ns as u128 {
                            x as u64
                        } else {
                            timer_duration_ns
                        },
                        None => timer_duration_ns,
                    }
                } else {
                    0
                }
            },
            None => match timeout_ns {
                Some(x) => if x < MAX_PARK_DURATION_NS as u128 {
                    x as u64
                } else {
                    MAX_PARK_DURATION_NS
                },
                None => MAX_PARK_DURATION_NS,
            },
        };
        proof {
            assert(next_deadline_found(old(self).timer_wheel@, nd, self.timer_wheel@));
        }
        Some(r)
    }

    /// Schedules a timer at exactly `deadline_ns` on the worker's wheel; its id, or
    /// nothing when the wheel refuses it or has no room left.
    pub fn enqueue_timer_entry(&mut self, deadline_ns: u64, handle: TimerHandle) -> (r: Option<u64>)
        requires
            old(self).timer_wheel.wf(),
        ensures
            final(self).timer_wheel.wf(),
            !old(self).timer_wheel@.has_room() ==> r is None && final(self).timer_wheel@ == old(
                self,
            ).timer_wheel@,
            old(self).timer_wheel@.has_room() ==> exists|res: Result<u64, crate::wheel::TimerWheelError>|
                timer_scheduled(old(self).timer_wheel@, deadline_ns, handle, res, final(self).timer_wheel@) && r == (
                match res {
                    Ok(id) => Some(id),
                    Err(_) => None::<u64>,
                }),
            final(self).worker_id == old(self).worker_id,
            final(self).stats == old(self).stats,
            final(self).shutdown == old(self).shutdown,
            final(self).timer_output@ == old(self).timer_output@,
    {
        if !self.timer_wheel.has_room() {
            return None;
        }
        let res = self.timer_wheel.schedule_timer(deadline_ns, handle);
        match res {
            Ok(timer_id) => Some(timer_id),
            Err(_) => None,
        }
    }

    /// Schedules a timer toward `target_deadline_ns` with the wheel's best fit; its
    /// id and the deadline used, or nothing when the wheel refuses it or has no room
    /// left.
    pub fn enqueue_timer_entry_best_fit(&mut self, target_deadline_ns: u64, handle: TimerHandle) -> (r: Option<(u64, u64)>)
        requires
            old(self).timer_wheel.wf(),
            old(self).timer_wheel@.now_ns < u64::MAX,
            old(self).timer_wheel@.now_ns + old(self).timer_wheel@.l2_coverage_ns <= u64::MAX,
        ensures
            final(self).timer_wheel.wf(),
            !old(self).timer_wheel@.has_room() ==> r is None && final(self).timer_wheel@ == old(
                self,
            ).timer_wheel@,
            old(self).timer_wheel@.has_room() ==> exists|res: Result<(u64, u64), crate::wheel::TimerWheelError>|
                timer_scheduled_best_fit(old(self).timer_wheel@, target_deadline_ns, handle, res, final(self).timer_wheel@)
                    && r == (match res {
                    Ok(p) => Some(p),
                    Err(_) => None::<(u64, u64)>,
                }),
            final(self).worker_id == old(self).worker_id,
            final(self).stats == old(self).stats,
            final(self).shutdown == old(self).shutdown,
            final(self).timer_output@ == old(self).timer_output@,
    {
        if !self.timer_wheel.has_room() {
            return None;
        }
        let res = self.timer_wheel.schedule_timer_best_fit(target_deadline_ns, handle);
        match res {
            Ok(p) => Some(p),
            Err(_) => None,
        }
    }

    /// Schedules a timer another worker sent, when it belongs to this worker;
    /// whether it was scheduled.
    pub fn handle_timer_schedule(&mut self, timer: TimerSchedule) -> (r: bool)
        requires
            old(self).timer_wheel.wf(),
        ensures
            final(self).timer_wheel.wf(),
            timer_schedule_handled(old(self).timer_wheel@, old(self).worker_id, timer, r, final(self).timer_wheel@),
            final(self).worker_id == old(self).worker_id,
            final(self).stats == old(self).stats,
            final(self).shutdown == old(self).shutdown,
            final(self).timer_output@ == old(self).timer_output@,
    {
        let (handle, deadline_ns) = timer.into_parts();
        if handle.worker_id() != self.worker_id {
            return false;
        }
        let r = self.enqueue_timer_entry(deadline_ns, handle);
        proof {
            if old(self).timer_wheel@.has_room() {
                let res = choose|res: Result<u64, crate::wheel::TimerWheelError>|
                    timer_scheduled(old(self).timer_wheel@, deadline_ns, handle, res, self.timer_wheel@) && r == (
                    match res {
                        Ok(id) => Some(id),
                        Err(_) => None::<u64>,
                    });
                assert(timer_scheduled(old(self).timer_wheel@, timer.deadline_ns, timer.handle, res, self.timer_wheel@)
                    && (r is Some) == res is Ok);
            }
        }
        r.is_some()
    }

    /// Expires the wheel's due timers (at most `TIMER_EXPIRE_BUDGET`) at the wheel's
    /// current time into `timer_output`, and returns the handles of those that
    /// belong to this worker, in order; the caller wakes their tasks and reports how
    /// many it woke with `record_timer_fires`. Nothing is polled when the time would
    /// take a level's tick out of range.
    pub fn poll_timers(&mut self) -> (r: Vec<TimerHandle>)
        requires
            old(self).timer_wheel.wf(),
        ensures
            final(self).timer_wheel.wf(),
            final(self).worker_id == old(self).worker_id,
            final(self).stats == old(self).stats,
            final(self).shutdown == old(self).shutdown,
            ({
                let o = old(self).timer_wheel@;
                let now = o.now_ns;
                if tick_fits(tick_of(o.l0, now), o.l0.num_spokes) && tick_fits(tick_of(o.l1, now), o.l1.num_spokes)
                    && tick_fits(tick_of(o.l2, now), o.l2.num_spokes) {
                    let out = final(self).timer_output@;
                    &&& out.len() <= TIMER_EXPIRE_BUDGET
                    &&& final(self).timer_wheel@.timer_count() == o.timer_count() - out.len()
                    &&& forall|j: int| 0 <= j < out.len() ==> #[trigger] polled_item(o, now, out[j])
                    &&& r@ == own_handles(out, old(self).worker_id)
                    &&& out.len() < TIMER_EXPIRE_BUDGET && o.l0.timer_count > 0 ==> level_swept(
                        o.l0,
                        l0_scan_start(o.prev_l0_tick),
                        tick_of(o.l0, now),
                        now,
                        final(self).timer_wheel@.l0,
                    )
                    &&& out.len() < TIMER_EXPIRE_BUDGET && o.l1.timer_count > 0 && tick_of(o.l1, now) > o.prev_l1_tick
                        ==> level_swept(o.l1, o.prev_l1_tick, tick_of(o.l1, now), now, final(self).timer_wheel@.l1)
                    &&& out.len() < TIMER_EXPIRE_BUDGET && o.l2.timer_count > 0 && tick_of(o.l2, now) > o.prev_l2_tick
                        ==> level_swept(o.l2, o.prev_l2_tick, tick_of(o.l2, now), now, final(self).timer_wheel@.l2)
                } else {
                    r@.len() == 0 && final(self).timer_wheel@ == o
                }
            }),
    {
        let now_ns = self.timer_wheel.now_ns();
        let mut fired: Vec<TimerHandle> = Vec::new();
        if !self.timer_wheel.can_poll(now_ns) {
            return fired;
        }
        let expired = self.timer_wheel.poll(now_ns, TIMER_EXPIRE_BUDGET, &mut self.timer_output);
        let ghost out = self.timer_output@;
        let mut idx: usize = 0;
        while idx < expired
            invariant
                out == self.timer_output@,
                expired == out.len(),
                idx <= expired,
                fired@ == own_handles(out.take(idx as int), self.worker_id),
            decreases expired - idx,
        {
            proof {
                assert(out.take(idx as int + 1).drop_last() =~= out.take(idx as int));
            }
            let (timer_id, deadline_ns, handle) = self.timer_output[idx];
            if self.process_timer_entry(timer_id, deadline_ns, handle) {
                fired.push(handle);
            }
            idx = idx + 1;
        }
        proof {
            assert(out.take(idx as int) =~= out);
        }
        fired
    }

    /// Whether an expired timer is this worker's to fire (its task is then woken by
    /// the caller, when the task still exists and is the timer's).
    pub fn process_timer_entry(&self, timer_id: u64, deadline_ns: u64, handle: TimerHandle) -> (r: bool)
        ensures
            r == (handle.worker_id == self.worker_id),
    {
        handle.worker_id() == self.worker_id
    }

    /// A health report: the worker's id, the wheel's time, its counters, the given
    /// yield queue length, its leaf partitions `[partition_start, partition_end)` and
    /// whether its waker shows work.
    pub fn handle_report_health(
        &self,
        waker: &WorkerWaker,
        yield_queue_len: usize,
        partition_start: usize,
        partition_end: usize,
    ) -> (r: WorkerHealthSnapshot)
        ensures
            r.worker_id == self.worker_id,
            r.timestamp_ns == self.timer_wheel@.now_ns,
            r.stats == self.stats,
            r.yield_queue_len == yield_queue_len,
            r.mpsc_queue_len == 0,
            r.active_leaf_partitions@ == Seq::new(
                (if partition_end > partition_start {
                    partition_end - partition_start
                } else {
                    0
                }) as nat,
                |i: int| (partition_start + i) as usize,
            ),
            r.has_work == (waker@.status != 0 || waker@.status & crate::waker::STATUS_SUMMARY_MASK != 0
                || waker@.permits > 0),
    {
        let mut partitions: Vec<usize> = Vec::new();
        let mut p = partition_start;
        while p < partition_end
            invariant
                partition_start <= p,
                p <= partition_end || p == partition_start,
                partitions@ == Seq::new((p - partition_start) as nat, |i: int| (partition_start + i) as usize),
            decreases partition_end - p,
        {
            partitions.push(p);
            proof {
                assert(partitions@ =~= Seq::new((p + 1 - partition_start) as nat, |i: int| (partition_start + i) as usize));
            }
            p = p + 1;
        }
        proof {
            assert(partitions@ =~= Seq::new(
                (if partition_end > partition_start {
                    partition_end - partition_start
                } else {
                    0
                }) as nat,
                |i: int| (partition_start + i) as usize,
            ));
        }
        WorkerHealthSnapshot {
            worker_id: self.worker_id,
            timestamp_ns: self.timer_wheel.now_ns(),
            stats: self.stats,
            yield_queue_len,
            mpsc_queue_len: 0,
            active_leaf_partitions: partitions,
            has_work: self.has_work(waker),
        }
    }

    /// Sets `timer` to fire `delay_ns` from the wheel's time for task `task_id`, the
    /// task being polled (`None` outside a task sets nothing); see `timer_set`. Cancel
    /// messages for another worker's wheel go to `posts`. The target on success.
    pub fn schedule_timer(
        &mut self,
        timer: &mut Timer,
        task_id: Option<u32>,
        delay_ns: u128,
        posts: &mut Vec<(u32, u32, u64)>,
    ) -> (r: Option<u64>)
        requires
            old(self).timer_wheel.wf(),
            old(self).timer_wheel@.now_ns < u64::MAX,
            old(self).timer_wheel@.now_ns + old(self).timer_wheel@.l2_coverage_ns <= u64::MAX,
        ensures
            final(self).timer_wheel.wf(),
            task_id is None ==> r is None && *final(timer) == *old(timer) && final(self).timer_wheel@ == old(
                self,
            ).timer_wheel@ && final(posts)@ == old(posts)@,
            task_id matches Some(task) ==> timer_set(
                old(self).worker_id,
                *old(timer),
                task,
                delay_ns,
                old(self).timer_wheel@,
                old(posts)@,
                r,
                *final(timer),
                final(self).timer_wheel@,
                final(posts)@,
            ),
            final(self).worker_id == old(self).worker_id,
            final(self).stats == old(self).stats,
            final(self).shutdown == old(self).shutdown,
            final(self).timer_output@ == old(self).timer_output@,
    {
        let task = match task_id {
            Some(t) => t,
            None => return None,
        };
        if timer.is_scheduled() {
            if let Some(owner) = timer.worker_id() {
                if owner == self.worker_id {
                    let existing_id = timer.timer_id();
                    if self.timer_wheel.cancel_timer(existing_id).is_ok() {
                        timer.reset();
                    }
                } else {
                    posts.push((self.worker_id, owner, timer.timer_id()));
                }
            }
        }
        let capped: u64 = if delay_ns > u64::MAX as u128 {
            u64::MAX
        } else {
            delay_ns as u64
        };
        let now = self.timer_wheel.now_ns();
        let target_deadline_ns = now.saturating_add(capped);
        let handle = timer.prepare(task, self.worker_id);
        match self.enqueue_timer_entry_best_fit(target_deadline_ns, handle) {
            Some((timer_id, wheel_deadline_ns)) => {
                timer.commit_schedule(timer_id, target_deadline_ns, wheel_deadline_ns);
                Some(target_deadline_ns)
            },
            None => {
                timer.reset();
                None
            },
        }
    }

    /// Counts `n` timers whose task was woken (saturating).
    pub fn record_timer_fires(&mut self, n: u64)
        ensures
            final(self).stats == (WorkerStats {
                timer_fires: if old(self).stats.timer_fires + n > u64::MAX {
                    u64::MAX
                } else {
                    (old(self).stats.timer_fires + n) as u64
                },
                ..old(self).stats
            }),
            final(self).worker_id == old(self).worker_id,
            final(self).timer_wheel@ == old(self).timer_wheel@,
            final(self).timer_output@ == old(self).timer_output@,
            final(self).shutdown == old(self).shutdown,
    {
        self.stats.timer_fires = self.stats.timer_fires.saturating_add(n);
    }

    /// Cancels `timer` from this worker (see `Timer::cancel`); a timer on another
    /// worker's wheel needs a cancel message posted to that worker.
    pub fn cancel_timer(&mut self, timer: &mut Timer) -> (r: CancelOutcome)
        requires
            old(self).timer_wheel.wf(),
        ensures
            final(self).timer_wheel.wf(),
            final(self).worker_id == old(self).worker_id,
            final(self).stats == old(self).stats,
            final(self).shutdown == old(self).shutdown,
            final(self).timer_output@ == old(self).timer_output@,
            crate::timer::timer_cancelled(
                *old(timer),
                Some(old(self).worker_id),
                old(self).timer_wheel@,
                r,
                *final(timer),
                final(self).timer_wheel@,
            ),
    {
        timer.cancel(Some(self.worker_id), &mut self.timer_wheel)
    }

    /// A cancel request for timer `timer_id` of worker `worker_id`: when that is this
    /// worker, the message (from this worker, to it, for the timer) to post; nothing
    /// otherwise.
    pub fn cancel_remote_timer(&self, worker_id: u32, timer_id: u64) -> (r: Option<(u32, u32, u64)>)
        ensures
            r == (if worker_id != self.worker_id {
                None
            } else {
                Some((self.worker_id, worker_id, timer_id))
            }),
    {
        if worker_id != self.worker_id {
            return None;
        }
        Some((self.worker_id, worker_id, timer_id))
    }

    /// Handles a message other than a shutdown (see `routine_handled`); cancel
    /// requests to post are appended to `posts`.
    fn handle_routine_message(&mut self, message: WorkerMessage, posts: &mut Vec<(u32, u32, u64)>) -> (r: bool)
        requires
            old(self).timer_wheel.wf(),
            !(message is GracefulShutdown),
            !(message is Shutdown),
        ensures
            final(self).timer_wheel.wf(),
            routine_handled(
                old(self).timer_wheel@,
                old(self).worker_id,
                message,
                r,
                final(self).timer_wheel@,
                old(posts)@,
                final(posts)@,
            ),
            final(self).worker_id == old(self).worker_id,
            final(self).stats == old(self).stats,
            final(self).shutdown == old(self).shutdown,
    {
        match message {
            WorkerMessage::ScheduleTimer { timer } => self.handle_timer_schedule(timer),
            WorkerMessage::ScheduleBatch { timers } => {
                let entries = timers.into_vec();
                let ghost o = self.timer_wheel@;
                let ghost ts = entries@;
                let ghost mut states: Seq<TimerWheelState<TimerHandle>> = seq![o];
                let ghost mut results: Seq<bool> = Seq::empty();
                let mut scheduled = false;
                let mut i: usize = 0;
                while i < entries.len()
                    invariant
                        self.timer_wheel.wf(),
                        ts == entries@,
                        i <= ts.len(),
                        batch_trace(o, self.worker_id, ts.take(i as int), states, results, scheduled, self.timer_wheel@),
                        self.worker_id == old(self).worker_id,
                        self.stats == old(self).stats,
                        self.shutdown == old(self).shutdown,
                    decreases ts.len() - i,
                {
                    let done = self.handle_timer_schedule(entries[i]);
                    proof {
                        let t = ts.take(i as int + 1);
                        let s2 = states.push(self.timer_wheel@);
                        let r2 = results.push(done);
                        assert forall|k: int| 0 <= k < t.len() implies #[trigger] timer_schedule_handled(
                            s2[k],
                            self.worker_id,
                            t[k],
                            r2[k],
                            s2[k + 1],
                        ) by {
                            if k < i {
                                assert(ts.take(i as int)[k] == t[k]);
                            }
                        }
                        if scheduled || done {
                            if done {
                                assert(r2[i as int] == true);
                            } else {
                                let k = choose|k: int| 0 <= k < results.len() && results[k] == true;
                                assert(r2[k] == true);
                            }
                        } else {
                            assert forall|k: int| 0 <= k < r2.len() implies r2[k] != true by {
                                if k < i {
                                    assert(!results.contains(true));
                                    assert(results[k] != true);
                                }
                            }
                        }
                        states = s2;
                        results = r2;
                    }
                    scheduled = scheduled || done;
                    i = i + 1;
                }
                proof {
                    assert(ts.take(i as int) =~= ts);
                }
                scheduled
            },
            WorkerMessage::CancelTimer { worker_id, timer_id } => match self.cancel_remote_timer(worker_id, timer_id) {
                Some(post) => {
                    posts.push(post);
                    true
                },
                None => false,
            },
            WorkerMessage::ReportHealth => true,
            WorkerMessage::Noop => true,
            WorkerMessage::GracefulShutdown => false,
            WorkerMessage::Shutdown => false,
        }
    }

    /// Handles one message: a shutdown sets the shutdown flag (a graceful one first
    /// handles the messages already queued, up to the next shutdown); any other
    /// message is handled as `routine_handled` says. Whether it made progress.
    pub fn handle_message(
        &mut self,
        rx: &mut Receiver<WorkerMessage>,
        message: WorkerMessage,
        posts: &mut Vec<(u32, u32, u64)>,
    ) -> (r: bool)
        requires
            old(self).timer_wheel.wf(),
            old(rx).inner.wf(),
        ensures
            final(self).timer_wheel.wf(),
            final(rx).inner.wf(),
            total_items(final(rx).inner@.queues) <= total_items(old(rx).inner@.queues),
            final(self).worker_id == old(self).worker_id,
            final(self).stats == old(self).stats,
            message is Shutdown ==> r && final(self).shutdown && final(self).timer_wheel@ == old(self).timer_wheel@,
            message is GracefulShutdown ==> r && final(self).shutdown,
            !(message is Shutdown) && !(message is GracefulShutdown) ==> routine_handled(
                old(self).timer_wheel@,
                old(self).worker_id,
                message,
                r,
                final(self).timer_wheel@,
                old(posts)@,
                final(posts)@,
            ) && final(self).shutdown == old(self).shutdown && final(rx).inner@ == old(rx).inner@,
            message_effect(
                old(self).worker_id,
                MessageState {
                    queue: old(rx).inner@,
                    wheel: old(self).timer_wheel@,
                    posts: old(posts)@,
                    shutdown: old(self).shutdown,
                },
                message,
                MessageState {
                    queue: final(rx).inner@,
                    wheel: final(self).timer_wheel@,
                    posts: final(posts)@,
                    shutdown: final(self).shutdown,
                },
            ),
    {
        match message {
            WorkerMessage::Shutdown => {
                self.shutdown = true;
                proof {
                    let a = MessageState {
                        queue: old(rx).inner@,
                        wheel: old(self).timer_wheel@,
                        posts: old(posts)@,
                        shutdown: old(self).shutdown,
                    };
                    let b = MessageState {
                        queue: rx.inner@,
                        wheel: self.timer_wheel@,
                        posts: posts@,
                        shutdown: self.shutdown,
                    };
                    assert(b.queue == a.queue);
                    assert(b.wheel == a.wheel);
                    assert(b.posts == a.posts);
                    assert(b == MessageState { shutdown: true, ..a });
                }
                true
            },
            WorkerMessage::GracefulShutdown => {
                self.handle_graceful_shutdown(rx, posts);
                true
            },
            other => {
                let r = self.handle_routine_message(other, posts);
                proof {
                    let a = MessageState {
                        queue: old(rx).inner@,
                        wheel: old(self).timer_wheel@,
                        posts: old(posts)@,
                        shutdown: old(self).shutdown,
                    };
                    let b = MessageState {
                        queue: rx.inner@,
                        wheel: self.timer_wheel@,
                        posts: posts@,
                        shutdown: self.shutdown,
                    };
                    assert(routine_handled(a.wheel, old(self).worker_id, other, r, b.wheel, a.posts, b.posts));
                    assert(message_effect(old(self).worker_id, a, other, b));
                }
                r
            },
        }
    }

    /// Handles the messages already queued, up to the next shutdown message or an
    /// empty channel, then sets the shutdown flag.
    pub fn handle_graceful_shutdown(&mut self, rx: &mut Receiver<WorkerMessage>, posts: &mut Vec<(u32, u32, u64)>)
        requires
            old(self).timer_wheel.wf(),
            old(rx).inner.wf(),
        ensures
            final(self).timer_wheel.wf(),
            final(rx).inner.wf(),
            total_items(final(rx).inner@.queues) <= total_items(old(rx).inner@.queues),
            final(self).shutdown,
            final(self).worker_id == old(self).worker_id,
            final(self).stats == old(self).stats,
            graceful_drained(
                old(self).worker_id,
                MessageState {
                    queue: old(rx).inner@,
                    wheel: old(self).timer_wheel@,
                    posts: old(posts)@,
                    shutdown: old(self).shutdown,
                },
                MessageState {
                    queue: final(rx).inner@,
                    wheel: final(self).timer_wheel@,
                    posts: final(posts)@,
                    shutdown: final(self).shutdown,
                },
            ),
    {
        let ghost start = MessageState {
            queue: rx.inner@,
            wheel: self.timer_wheel@,
            posts: posts@,
            shutdown: self.shutdown,
        };
        let ghost mut ss: Seq<MessageState> = seq![start];
        let ghost mut ms: Seq<WorkerMessage> = seq![];
        loop
            invariant_except_break
                ss.last().queue == rx.inner@,
            invariant
                self.timer_wheel.wf(),
                rx.inner.wf(),
                total_items(rx.inner@.queues) <= total_items(old(rx).inner@.queues),
                self.worker_id == old(self).worker_id,
                self.stats == old(self).stats,
                self.shutdown == old(self).shutdown,
                start == (MessageState {
                    queue: old(rx).inner@,
                    wheel: old(self).timer_wheel@,
                    posts: old(posts)@,
                    shutdown: old(self).shutdown,
                }),
                ss.len() == ms.len() + 1,
                ss[0] == start,
                forall|i: int| 0 <= i < ms.len() ==> #[trigger] routine_step(old(self).worker_id, ss[i], ms[i], ss[i + 1]),
                ss.last().wheel == self.timer_wheel@,
                ss.last().posts == posts@,
                ss.last().shutdown == self.shutdown,
            ensures
                kept_or_reaped(ss.last().queue, rx.inner@) || exists|m: WorkerMessage|
                    (m is Shutdown || m is GracefulShutdown) && #[trigger] message_taken(ss.last().queue, m, rx.inner@),
            decreases total_items(rx.inner@.queues),
        {
            let ghost before = rx.inner@;
            match rx.try_pop() {
                Ok(message) => {
                    proof {
                        let pid = choose|pid: int| #[trigger] drained_from(before, pid, 1, seq![message], rx.inner@);
                        crate::mpsc::lemma_drained_items(before, pid, 1, seq![message], rx.inner@);
                        assert(message_taken(before, message, rx.inner@));
                    }
                    match message {
                        WorkerMessage::Shutdown => {
                            break;
                        },
                        WorkerMessage::GracefulShutdown => {
                            break;
                        },
                        other => {
                            let ghost a = ss.last();
                            let ghost q = rx.inner@;
                            let r = self.handle_routine_message(other, posts);
                            proof {
                                let b = MessageState {
                                    queue: q,
                                    wheel: self.timer_wheel@,
                                    posts: posts@,
                                    shutdown: self.shutdown,
                                };
                                assert(routine_handled(a.wheel, old(self).worker_id, other, r, b.wheel, a.posts, b.posts));
                                assert(routine_step(old(self).worker_id, a, other, b));
                                let ss0 = ss;
                                let ms0 = ms;
                                ss = ss.push(b);
                                ms = ms.push(other);
                                assert forall|i: int| 0 <= i < ms.len() implies #[trigger] routine_step(
                                    old(self).worker_id,
                                    ss[i],
                                    ms[i],
                                    ss[i + 1],
                                ) by {
                                    if i < ms0.len() {
                                        assert(ss[i] == ss0[i] && ss[i + 1] == ss0[i + 1] && ms[i] == ms0[i]);
                                    }
                                }
                            }
                        },
                    }
                },
                Err(_) => {
                    proof {
                        crate::mpsc::lemma_kept_or_reaped_items(before, rx.inner@);
                    }
                    break;
                },
            }
        }
        self.shutdown = true;
        proof {
            let fin = MessageState {
                queue: rx.inner@,
                wheel: self.timer_wheel@,
                posts: posts@,
                shutdown: self.shutdown,
            };
            assert(graceful_end(ss.last(), fin));
            assert(graceful_drained(old(self).worker_id, start, fin));
        }
    }

    /// Handles the queued messages while the waker shows work; whether any made
    /// progress. Nothing is done when the waker's status is clear; otherwise each
    /// message taken from the channel is handled in turn (see `handled_step`) until a
    /// pop finds nothing.
    pub fn process_messages(
        &mut self,
        rx: &mut Receiver<WorkerMessage>,
        waker: &WorkerWaker,
        posts: &mut Vec<(u32, u32, u64)>,
    ) -> (r: bool)
        requires
            old(self).timer_wheel.wf(),
            old(rx).inner.wf(),
        ensures
            final(self).timer_wheel.wf(),
            final(rx).inner.wf(),
            total_items(final(rx).inner@.queues) <= total_items(old(rx).inner@.queues),
            final(self).worker_id == old(self).worker_id,
            final(self).stats == old(self).stats,
            waker@.status == 0 ==> !r && final(self).timer_wheel@ == old(self).timer_wheel@ && final(rx).inner@ == old(
                rx,
            ).inner@ && final(self).shutdown == old(self).shutdown && final(posts)@ == old(posts)@,
            !r ==> final(self).timer_wheel@ == old(self).timer_wheel@ && final(self).shutdown == old(self).shutdown
                && final(posts)@ == old(posts)@,
            r ==> total_items(final(rx).inner@.queues) < total_items(old(rx).inner@.queues),
            waker@.status != 0 ==> exists|s: InnerState<WorkerMessage>, seed: u64|
                rounds_missed(s, seed, 64, final(rx).inner@) && final(rx).seed == lcg_iter(seed, 128) && forall|p: int|
                    #[trigger] sole_signalled(s, p) ==> s.queues[p]->0.items().len() == 0,
            waker@.status != 0 ==> exists|ss: Seq<MessageState>|
                #![trigger ss.last()]
                {
                    &&& ss.len() >= 1
                    &&& ss[0] == (MessageState {
                        queue: old(rx).inner@,
                        wheel: old(self).timer_wheel@,
                        posts: old(posts)@,
                        shutdown: old(self).shutdown,
                    })
                    &&& forall|i: int| 0 <= i < ss.len() - 1 ==> #[trigger] handled_step(old(self).worker_id, ss[i], ss[i + 1])
                    &&& final(self).timer_wheel@ == ss.last().wheel
                    &&& final(posts)@ == ss.last().posts
                    &&& final(self).shutdown == ss.last().shutdown
                    &&& exists|seed: u64|
                        rounds_missed(ss.last().queue, seed, 64, final(rx).inner@) && final(rx).seed == lcg_iter(seed, 128)
                },
    {
        if waker.status() == 0 {
            return false;
        }
        let ghost start = MessageState {
            queue: rx.inner@,
            wheel: self.timer_wheel@,
            posts: posts@,
            shutdown: self.shutdown,
        };
        let ghost mut ss: Seq<MessageState> = seq![start];
        let mut progress = false;
        loop
            invariant_except_break
                ss.last() == (MessageState {
                    queue: rx.inner@,
                    wheel: self.timer_wheel@,
                    posts: posts@,
                    shutdown: self.shutdown,
                }),
            invariant
                ss.len() >= 1,
                ss[0] == start,
                start == (MessageState {
                    queue: old(rx).inner@,
                    wheel: old(self).timer_wheel@,
                    posts: old(posts)@,
                    shutdown: old(self).shutdown,
                }),
                forall|i: int| 0 <= i < ss.len() - 1 ==> #[trigger] handled_step(old(self).worker_id, ss[i], ss[i + 1]),
                ss.last().wheel == self.timer_wheel@,
                ss.last().posts == posts@,
                ss.last().shutdown == self.shutdown,
                self.timer_wheel.wf(),
                rx.inner.wf(),
                total_items(rx.inner@.queues) <= total_items(old(rx).inner@.queues),
                self.worker_id == old(self).worker_id,
                self.stats == old(self).stats,
                !progress ==> self.timer_wheel@ == old(self).timer_wheel@ && self.shutdown == old(self).shutdown
                    && posts@ == old(posts)@,
                progress ==> total_items(rx.inner@.queues) < total_items(old(rx).inner@.queues),
            ensures
                exists|s: InnerState<WorkerMessage>, seed: u64|
                    rounds_missed(s, seed, 64, rx.inner@) && rx.seed == lcg_iter(seed, 128) && forall|p: int|
                        #[trigger] sole_signalled(s, p) ==> s.queues[p]->0.items().len() == 0,
                exists|seed: u64| rounds_missed(ss.last().queue, seed, 64, rx.inner@) && rx.seed == lcg_iter(seed, 128),
            decreases total_items(rx.inner@.queues),
        {
            let ghost before = rx.inner@;
            let ghost seed_before = rx.seed;
            let ghost wheel_before = self.timer_wheel@;
            let ghost posts_before = posts@;
            match rx.try_pop() {
                Ok(message) => {
                    proof {
                        let pid = choose|pid: int| #[trigger]
                            crate::mpsc::drained_from(before, pid, 1, seq![message], rx.inner@);
                        crate::mpsc::lemma_drained_items(before, pid, 1, seq![message], rx.inner@);
                    }
                    let ghost wid = self.worker_id;
                    let ghost a = ss.last();
                    let ghost q = rx.inner@;
                    proof {
                        assert(message_taken(a.queue, message, q));
                    }
                    let handled = self.handle_message(rx, message, posts);
                    proof {
                        if !handled {
                            lemma_no_progress_keeps(wheel_before, wid, message, self.timer_wheel@, posts_before, posts@);
                        }
                        let b = MessageState {
                            queue: rx.inner@,
                            wheel: self.timer_wheel@,
                            posts: posts@,
                            shutdown: self.shutdown,
                        };
                        assert(message_effect(wid, MessageState { queue: q, ..a }, message, b));
                        assert(handled_step(wid, a, b));
                        let ss0 = ss;
                        ss = ss.push(b);
                        assert forall|i: int| 0 <= i < ss.len() - 1 implies #[trigger] handled_step(
                            old(self).worker_id,
                            ss[i],
                            ss[i + 1],
                        ) by {
                            if i < ss0.len() - 1 {
                                assert(ss[i] == ss0[i] && ss[i + 1] == ss0[i + 1]);
                            }
                        }
                    }
                    if handled {
                        progress = true;
                    }
                },
                Err(_) => {
                    proof {
                        crate::mpsc::lemma_kept_or_reaped_items(before, rx.inner@);
                        assert(rounds_missed(before, seed_before, 64, rx.inner@));
                        assert(rounds_missed(ss.last().queue, seed_before, 64, rx.inner@));
                        assert forall|p: int| #[trigger] sole_signalled(before, p) implies before.queues[p]->0.items().len()
                            == 0 by {
                            if before.queues[p]->0.items().len() > 0 {
                                crate::mpsc::lemma_sole_signalled_producer_is_found(before, seed_before, 64, rx.inner@, p);
                            }
                        }
                    }
                    break;
                },
            }
        }
        progress
    }
}

} // verus!
