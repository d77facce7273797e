use vstd::prelude::*;

use crate::timer_wheel::{id_fields, timer_id_of, timer_scheduled_best_fit, TimerWheel, TimerWheelState};
use crate::wheel::{cancel_result, schedule_id};

verus! {

/// Lifecycle of a timer.
#[derive(Clone, Copy, Debug, PartialEq, Eq, Structural)]
pub enum TimerState {
    Idle,
    Scheduled,
    Cancelled,
}

/// The state a stored number stands for: 0 idle, 1 scheduled, 2 cancelled, and
/// idle for any other number.
pub open spec fn timer_state_of(val: u8) -> TimerState {
    if val == 1 {
        TimerState::Scheduled
    } else if val == 2 {
        TimerState::Cancelled
    } else {
        TimerState::Idle
    }
}

impl From<u8> for TimerState {
    fn from(val: u8) -> (r: Self) {
        match val {
            0 => TimerState::Idle,
            1 => TimerState::Scheduled,
            2 => TimerState::Cancelled,
            _ => TimerState::Idle,
        }
    }
}

impl vstd::std_specs::convert::FromSpecImpl<u8> for TimerState {
    open spec fn obeys_from_spec() -> bool {
        true
    }

    open spec fn from_spec(v: u8) -> Self {
        timer_state_of(v)
    }
}

/// What a timer wheel stores for a timer: the task to wake and where the timer
/// lives.
#[derive(Clone, Copy, Debug)]
pub struct TimerHandle {
    pub task_id: u32,
    pub worker_id: u32,
    pub timer_id: u64,
}

impl TimerHandle {
    /// A handle for task `task_id` on worker `worker_id`.
    pub fn new(task_id: u32, worker_id: u32, timer_id: u64) -> (h: Self)
        ensures
            h.task_id == task_id,
            h.worker_id == worker_id,
            h.timer_id == timer_id,
    {
        TimerHandle { task_id, worker_id, timer_id }
    }

    /// The task to wake.
    pub fn task_id(&self) -> (r: u32)
        ensures
            r == self.task_id,
    {
        self.task_id
    }

    /// The worker whose wheel holds the timer.
    pub fn worker_id(&self) -> (r: u32)
        ensures
            r == self.worker_id,
    {
        self.worker_id
    }

    /// The timer's id in that wheel.
    pub fn timer_id(&self) -> (r: u64)
        ensures
            r == self.timer_id,
    {
        self.timer_id
    }
}

/// A timer owned by a task: its state, the deadline the user asked for, the
/// deadline the wheel fires at (earlier for long timers, which are rescheduled
/// until the target is reached), and where it is scheduled.
#[derive(Debug)]
pub struct Timer {
    pub state: TimerState,
    pub target_deadline_ns: u64,
    pub wheel_deadline_ns: u64,
    pub task_id: u32,
    pub worker_id: Option<u32>,
    pub timer_id: u64,
}

/// What cancelling a timer comes to.
#[derive(Clone, Copy, Debug, PartialEq, Eq, Structural)]
pub enum CancelOutcome {
    /// The timer was removed from the current worker's wheel and marked cancelled.
    Cancelled,
    /// Nothing was cancelled.
    NotCancelled,
    /// The timer lives on worker `owner`: a cancel message for `timer_id` must be
    /// posted to it, after which the timer is marked cancelled.
    PostToOwner { owner: u32, timer_id: u64 },
}

impl Timer {
    /// The timer state after its identity is cleared.
    pub open spec fn cleared(&self, state: TimerState) -> Timer {
        Timer {
            state,
            target_deadline_ns: 0,
            wheel_deadline_ns: 0,
            worker_id: None,
            timer_id: 0,
            ..*self
        }
    }

    /// An idle timer with no deadline.
    pub fn new() -> (t: Self)
        ensures
            t.state == TimerState::Idle,
            t.target_deadline_ns == 0 && t.wheel_deadline_ns == 0,
            t.task_id == 0 && t.worker_id is None && t.timer_id == 0,
    {
        Timer {
            state: TimerState::Idle,
            target_deadline_ns: 0,
            wheel_deadline_ns: 0,
            task_id: 0,
            worker_id: None,
            timer_id: 0,
        }
    }

    /// A delay of `delay_ns` nanoseconds on this timer.
    pub fn delay(&self, delay_ns: u64) -> (d: TimerDelay)
        ensures
            d.delay_ns == delay_ns,
            !d.scheduled,
    {
        TimerDelay::new(delay_ns)
    }

    /// The timer's state.
    pub fn state(&self) -> (r: TimerState)
        ensures
            r == self.state,
    {
        self.state
    }

    /// The deadline the user asked for.
    pub fn target_deadline_ns(&self) -> (r: u64)
        ensures
            r == self.target_deadline_ns,
    {
        self.target_deadline_ns
    }

    /// The deadline the wheel fires at.
    pub fn wheel_deadline_ns(&self) -> (r: u64)
        ensures
            r == self.wheel_deadline_ns,
    {
        self.wheel_deadline_ns
    }

    /// The deadline the wheel fires at (older name).
    pub fn deadline_ns(&self) -> (r: u64)
        ensures
            r == self.wheel_deadline_ns,
    {
        self.wheel_deadline_ns
    }

    /// Whether the timer is scheduled.
    pub fn is_scheduled(&self) -> (r: bool)
        ensures
            r == (self.state == TimerState::Scheduled),
    {
        match self.state {
            TimerState::Scheduled => true,
            _ => false,
        }
    }

    /// Whether the wheel fired at `now_ns` before the target was reached, so the
    /// timer must be scheduled again for the rest.
    pub fn needs_reschedule(&self, now_ns: u64) -> (r: bool)
        ensures
            r == (self.state == TimerState::Scheduled && now_ns >= self.wheel_deadline_ns && now_ns
                < self.target_deadline_ns),
    {
        self.is_scheduled() && now_ns >= self.wheel_deadline_ns && now_ns < self.target_deadline_ns
    }

    /// Binds the timer to task `task_id` on worker `worker_id`, idle with no
    /// deadline, and returns the handle to schedule.
    pub fn prepare(&mut self, task_id: u32, worker_id: u32) -> (h: TimerHandle)
        ensures
            *final(self) == (Timer {
                state: TimerState::Idle,
                target_deadline_ns: 0,
                wheel_deadline_ns: 0,
                task_id,
                worker_id: Some(worker_id),
                timer_id: 0,
            }),
            h.task_id == task_id && h.worker_id == worker_id && h.timer_id == 0,
    {
        self.task_id = task_id;
        self.worker_id = Some(worker_id);
        self.timer_id = 0;
        self.target_deadline_ns = 0;
        self.wheel_deadline_ns = 0;
        self.state = TimerState::Idle;
        TimerHandle::new(task_id, worker_id, 0)
    }

    /// Records a successful schedule.
    pub fn commit_schedule(&mut self, timer_id: u64, target_deadline_ns: u64, wheel_deadline_ns: u64)
        ensures
            *final(self) == (Timer {
                state: TimerState::Scheduled,
                timer_id,
                target_deadline_ns,
                wheel_deadline_ns,
                ..*old(self)
            }),
    {
        self.timer_id = timer_id;
        self.target_deadline_ns = target_deadline_ns;
        self.wheel_deadline_ns = wheel_deadline_ns;
        self.state = TimerState::Scheduled;
    }

    /// Records a reschedule: same target, new id and wheel deadline.
    pub fn commit_reschedule(&mut self, timer_id: u64, wheel_deadline_ns: u64)
        ensures
            *final(self) == (Timer { timer_id, wheel_deadline_ns, ..*old(self) }),
    {
        self.timer_id = timer_id;
        self.wheel_deadline_ns = wheel_deadline_ns;
    }

    /// Marks the timer cancelled and clears its identity if it still carries
    /// `timer_id`; returns whether it did.
    pub fn mark_cancelled(&mut self, timer_id: u64) -> (r: bool)
        ensures
            r == (old(self).timer_id == timer_id),
            r ==> *final(self) == old(self).cleared(TimerState::Cancelled),
            !r ==> *final(self) == *old(self),
    {
        if self.timer_id != timer_id {
            return false;
        }
        self.state = TimerState::Cancelled;
        self.clear_identity();
        true
    }

    /// Makes the timer idle and clears its identity.
    pub fn reset(&mut self)
        ensures
            *final(self) == old(self).cleared(TimerState::Idle),
    {
        self.state = TimerState::Idle;
        self.clear_identity();
    }

    /// The worker the timer is scheduled on.
    pub fn worker_id(&self) -> (r: Option<u32>)
        ensures
            r == self.worker_id,
    {
        self.worker_id
    }

    /// The timer's id in its wheel.
    pub fn timer_id(&self) -> (r: u64)
        ensures
            r == self.timer_id,
    {
        self.timer_id
    }

    fn clear_identity(&mut self)
        ensures
            *final(self) == old(self).cleared(old(self).state),
    {
        self.target_deadline_ns = 0;
        self.wheel_deadline_ns = 0;
        self.timer_id = 0;
        self.worker_id = None;
    }
}

impl Default for Timer {
    fn default() -> (t: Self)
        ensures
            t.state == TimerState::Idle,
            t.target_deadline_ns == 0 && t.wheel_deadline_ns == 0,
            t.task_id == 0 && t.worker_id is None && t.timer_id == 0,
    {
        Self::new()
    }
}

/// A pending delay on a timer.
pub struct TimerDelay {
    pub delay_ns: u64,
    pub scheduled: bool,
}

/// What polling a delay asks of the worker.
#[derive(Clone, Copy, Debug, PartialEq, Eq, Structural)]
pub enum DelayStep {
    /// The timer is not scheduled: schedule it for the delay, then wait.
    Schedule,
    /// The target deadline was reached; the timer was reset.
    Ready,
    /// The wheel fired early: schedule the timer for the rest, then wait.
    Reschedule,
    /// Keep waiting.
    Pending,
}

impl TimerDelay {
    /// A delay of `delay_ns` nanoseconds, not yet scheduled.
    pub fn new(delay_ns: u64) -> (d: Self)
        ensures
            d.delay_ns == delay_ns,
            !d.scheduled,
    {
        TimerDelay { delay_ns, scheduled: false }
    }

    /// One poll of the delay at `now_ns`: an unscheduled timer is to be scheduled;
    /// a reached target resets the timer and completes; a wheel that fired before
    /// the target asks for a reschedule.
    pub fn poll_step(&self, timer: &mut Timer, now_ns: u64) -> (r: DelayStep)
        ensures
            old(timer).state != TimerState::Scheduled ==> r == DelayStep::Schedule && *final(timer)
                == *old(timer),
            old(timer).state == TimerState::Scheduled && now_ns >= old(timer).target_deadline_ns ==> r
                == DelayStep::Ready && *final(timer) == old(timer).cleared(TimerState::Idle),
            old(timer).state == TimerState::Scheduled && now_ns < old(timer).target_deadline_ns
                ==> *final(timer) == *old(timer) && r == if now_ns >= old(timer).wheel_deadline_ns {
                DelayStep::Reschedule
            } else {
                DelayStep::Pending
            },
    {
        if !timer.is_scheduled() {
            return DelayStep::Schedule;
        }
        let target_deadline = timer.target_deadline_ns();
        if now_ns >= target_deadline {
            timer.reset();
            return DelayStep::Ready;
        }
        if timer.needs_reschedule(now_ns) {
            return DelayStep::Reschedule;
        }
        DelayStep::Pending
    }
}

/// What cancelling timer `t` from worker `current_worker` (none outside a worker)
/// does to it and to that worker's wheel `w`: an unscheduled timer, one without a
/// worker or an id, or a call outside a worker cancels nothing; on its own wheel it
/// is removed and marked cancelled when the wheel finds it; on another worker's
/// wheel a cancel message must be posted to that worker.
pub open spec fn timer_cancelled(
    t: Timer,
    current_worker: Option<u32>,
    w: TimerWheelState<TimerHandle>,
    r: CancelOutcome,
    f: Timer,
    wf: TimerWheelState<TimerHandle>,
) -> bool {
    if t.state != TimerState::Scheduled || t.worker_id is None || t.timer_id == 0 || current_worker is None {
        r == CancelOutcome::NotCancelled && f == t && wf == w
    } else if t.worker_id == current_worker {
        let removed = wheel_cancel_ok(w, t.timer_id);
        &&& r == if removed {
            CancelOutcome::Cancelled
        } else {
            CancelOutcome::NotCancelled
        }
        &&& f == if removed {
            t.cleared(TimerState::Cancelled)
        } else {
            t
        }
        &&& wf == crate::timer_wheel::cancelled_state(w, t.timer_id)
    } else {
        &&& r == (CancelOutcome::PostToOwner { owner: t.worker_id->0, timer_id: t.timer_id })
        &&& f == t
        &&& wf == w
    }
}

/// Timer operations of a worker on its own wheel.
impl Timer {
    /// Schedules the timer for `delay_ns` from the wheel's current time (saturating)
    /// for task `task_id` on worker `worker_id`, using the wheel's best-fit
    /// scheduling. On success the timer is scheduled with that target and the
    /// wheel's deadline, and the target is returned; on failure it is reset.
    pub fn schedule_in(
        &mut self,
        wheel: &mut TimerWheel<TimerHandle>,
        task_id: u32,
        worker_id: u32,
        delay_ns: u64,
    ) -> (r: Option<u64>)
        requires
            old(wheel).wf(),
            old(wheel)@.has_room(),
            old(wheel)@.now_ns < u64::MAX,
            old(wheel)@.now_ns + old(wheel)@.l2_coverage_ns <= u64::MAX,
        ensures
            final(wheel).wf(),
            ({
                let now = old(wheel)@.now_ns;
                let target = if now + delay_ns > u64::MAX {
                    u64::MAX
                } else {
                    (now + delay_ns) as u64
                };
                match r {
                    Some(t) => {
                        &&& t == target
                        &&& final(self).state == TimerState::Scheduled
                        &&& final(self).target_deadline_ns == target
                        &&& final(self).task_id == task_id
                        &&& final(self).worker_id == Some(worker_id)
                        &&& final(wheel)@.timer_count() == old(wheel)@.timer_count() + 1
                    },
                    None => {
                        &&& final(self).state == TimerState::Idle
                        &&& final(self).worker_id is None
                        &&& final(wheel)@ == old(wheel)@
                    },
                }
            }),
    {
        proof {
            wheel.lemma_wf_levels();
            lemma_room_counts(wheel@);
        }
        let now = wheel.now_ns();
        let target_deadline_ns = now.saturating_add(delay_ns);
        let handle = self.prepare(task_id, worker_id);
        match wheel.schedule_timer_best_fit(target_deadline_ns, handle) {
            Ok((timer_id, wheel_deadline_ns)) => {
                self.commit_schedule(timer_id, target_deadline_ns, wheel_deadline_ns);
                Some(target_deadline_ns)
            },
            Err(_) => {
                self.reset();
                None
            },
        }
    }

    /// Schedules the timer again toward its target on worker `worker_id`'s wheel,
    /// when it belongs to that worker; returns whether it was rescheduled.
    pub fn reschedule_in(&mut self, wheel: &mut TimerWheel<TimerHandle>, task_id: u32, worker_id: u32) -> (r:
        bool)
        requires
            old(wheel).wf(),
            old(wheel)@.has_room(),
            old(wheel)@.now_ns < u64::MAX,
            old(wheel)@.now_ns + old(wheel)@.l2_coverage_ns <= u64::MAX,
        ensures
            final(wheel).wf(),
            old(self).worker_id != Some(worker_id) ==> !r && *final(self) == *old(self) && final(wheel)@
                == old(wheel)@,
            r ==> final(self).target_deadline_ns == old(self).target_deadline_ns && final(self).state
                == old(self).state && final(wheel)@.timer_count() == old(wheel)@.timer_count() + 1,
            !r ==> *final(self) == *old(self),
            old(self).worker_id == Some(worker_id) ==> exists|res: Result<(u64, u64), crate::wheel::TimerWheelError>|
                #[trigger] timer_scheduled_best_fit(
                    old(wheel)@,
                    old(self).target_deadline_ns,
                    TimerHandle { task_id, worker_id, timer_id: 0 },
                    res,
                    final(wheel)@,
                ) && match res {
                    Ok(p) => r && *final(self) == (Timer { timer_id: p.0, wheel_deadline_ns: p.1, ..*old(self) }),
                    Err(_) => !r,
                },
    {
        match self.worker_id {
            Some(w) => {
                if w != worker_id {
                    return false;
                }
            },
            None => {
                return false;
            },
        }
        proof {
            wheel.lemma_wf_levels();
            lemma_room_counts(wheel@);
        }
        let target_deadline_ns = self.target_deadline_ns;
        let handle = TimerHandle::new(task_id, worker_id, 0);
        match wheel.schedule_timer_best_fit(target_deadline_ns, handle) {
            Ok((timer_id, wheel_deadline_ns)) => {
                self.commit_reschedule(timer_id, wheel_deadline_ns);
                true
            },
            Err(_) => false,
        }
    }

    /// Cancels a scheduled timer from worker `current_worker` (none outside a
    /// worker): on its own wheel it is removed and marked cancelled; on another
    /// worker's wheel a cancel message must be posted to that worker. An unscheduled
    /// timer, one without a worker or an id, or a call outside a worker cancels
    /// nothing.
    pub fn cancel(&mut self, current_worker: Option<u32>, wheel: &mut TimerWheel<TimerHandle>) -> (r:
        CancelOutcome)
        requires
            old(wheel).wf(),
        ensures
            final(wheel).wf(),
            timer_cancelled(*old(self), current_worker, old(wheel)@, r, *final(self), final(wheel)@),
    {
        if !self.is_scheduled() {
            return CancelOutcome::NotCancelled;
        }
        let timer_worker_id = match self.worker_id {
            Some(w) => w,
            None => return CancelOutcome::NotCancelled,
        };
        let timer_id = self.timer_id;
        if timer_id == 0 {
            return CancelOutcome::NotCancelled;
        }
        let worker_id = match current_worker {
            Some(w) => w,
            None => return CancelOutcome::NotCancelled,
        };
        if timer_worker_id == worker_id {
            if wheel.cancel_timer(timer_id).is_ok() {
                self.mark_cancelled(timer_id);
                return CancelOutcome::Cancelled;
            }
            return CancelOutcome::NotCancelled;
        }
        CancelOutcome::PostToOwner { owner: timer_worker_id, timer_id }
    }
}

/// With room for one more timer, adding one to a wheel's count does not wrap.
proof fn lemma_room_counts<T>(w: TimerWheelState<T>)
    requires
        w.has_room(),
        w.l0.wf(),
        w.l1.wf(),
        w.l2.wf(),
    ensures
        w.l0.timer_count + 1 <= u64::MAX,
        w.l1.timer_count + 1 <= u64::MAX,
        w.l2.timer_count + 1 <= u64::MAX,
{
    let a = w.l0.timer_count + 1;
    let b = w.l1.timer_count + 1;
    let c = w.l2.timer_count + 1;
    let ma = w.l0.config.target_capacity_multiplier as int;
    let mb = w.l1.config.target_capacity_multiplier as int;
    let mc = w.l2.config.target_capacity_multiplier as int;
    assert(a <= a * ma) by (nonlinear_arith)
        requires
            a >= 0,
            ma >= 1,
    ;
    assert(b <= b * mb) by (nonlinear_arith)
        requires
            b >= 0,
            mb >= 1,
    ;
    assert(c <= c * mc) by (nonlinear_arith)
        requires
            c >= 0,
            mc >= 1,
    ;
}

/// Whether cancelling `timer_id` on a wheel in state `w` succeeds.
pub open spec fn wheel_cancel_ok(w: TimerWheelState<TimerHandle>, timer_id: u64) -> bool {
    let f = id_fields(timer_id);
    f.0 <= 2 && cancel_result(w.level(f.0), f.1, f.2, f.3) is Ok
}

} // verus!
