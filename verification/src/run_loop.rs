use vstd::prelude::*;

use crate::acquire::first_draw;
use crate::mpsc::lcg_next;
use crate::scheduler::{first_hit_from, others_tried, ring_worker, steal_hit, yield_stolen, Scheduler, WorkerStats};
use crate::waker::{flag_marked, WorkerWaker, STATUS_BIT_YIELD};
use crate::worker::{keeps_timers_and_partition, Worker};

verus! {

/// Probes in one run pass over the worker's block.
pub const RUN_ONCE_PROBES: usize = 16;

/// What a run pass does after a probe.
#[derive(Clone, Copy, Debug, PartialEq, Eq, Structural)]
pub enum ProbeAction {
    /// Probe again.
    Probe,
    /// A task pinned the generator: leave the pass at once.
    ExitGenerator,
    /// All probes are done.
    Done,
}

/// What a run pass does after `probes_done` probes, the last of which found a task
/// when `found`, and a polled task pinned the generator when `must_exit`.
pub open spec fn probe_decision(probes_done: usize, found: bool, must_exit: bool) -> ProbeAction {
    if found && must_exit {
        ProbeAction::ExitGenerator
    } else if probes_done >= RUN_ONCE_PROBES {
        ProbeAction::Done
    } else {
        ProbeAction::Probe
    }
}

/// The step of a run pass after a probe; see `probe_decision`.
pub fn run_once_step(probes_done: usize, found: bool, must_exit: bool) -> (a: ProbeAction)
    ensures
        a == probe_decision(probes_done, found, must_exit),
{
    if found && must_exit {
        ProbeAction::ExitGenerator
    } else if probes_done >= RUN_ONCE_PROBES {
        ProbeAction::Done
    } else {
        ProbeAction::Probe
    }
}

/// The stages of the exhaustive pass, in order.
#[derive(Clone, Copy, Debug, PartialEq, Eq, Structural)]
pub enum ExhaustiveStage {
    /// Expire due timers.
    PollTimers,
    /// Handle queued messages.
    ProcessMessages,
    /// Try a random leaf of the worker's partition.
    TryPartition,
    /// Try a random leaf again, or else every leaf of the partition in order.
    TryPartitionAgain,
    /// Steal from the whole arena: random leaves, then every leaf in order.
    StealAny,
    /// Steal a yielded task from another worker's yield queue.
    StealYield,
    /// The pass is over.
    Finished,
}

/// The stage after `stage` of the exhaustive pass, given whether anything made
/// progress so far and whether a polled task pinned the generator: every check of
/// the pinning ends the pass when it is set, and stealing (from the arena, then
/// from another worker's yield queue) happens only while nothing made progress.
pub open spec fn next_stage(stage: ExhaustiveStage, progress: bool, must_exit: bool) -> ExhaustiveStage {
    match stage {
        ExhaustiveStage::PollTimers => ExhaustiveStage::ProcessMessages,
        ExhaustiveStage::ProcessMessages => if must_exit {
            ExhaustiveStage::Finished
        } else {
            ExhaustiveStage::TryPartition
        },
        ExhaustiveStage::TryPartition => if must_exit {
            ExhaustiveStage::Finished
        } else {
            ExhaustiveStage::TryPartitionAgain
        },
        ExhaustiveStage::TryPartitionAgain => if must_exit || progress {
            ExhaustiveStage::Finished
        } else {
            ExhaustiveStage::StealAny
        },
        ExhaustiveStage::StealAny => if must_exit || progress {
            ExhaustiveStage::Finished
        } else {
            ExhaustiveStage::StealYield
        },
        ExhaustiveStage::StealYield => ExhaustiveStage::Finished,
        ExhaustiveStage::Finished => ExhaustiveStage::Finished,
    }
}

/// The step of the exhaustive pass; see `next_stage`.
pub fn exhaustive_step(stage: ExhaustiveStage, progress: bool, must_exit: bool) -> (s: ExhaustiveStage)
    ensures
        s == next_stage(stage, progress, must_exit),
{
    match stage {
        ExhaustiveStage::PollTimers => ExhaustiveStage::ProcessMessages,
        ExhaustiveStage::ProcessMessages => if must_exit {
            ExhaustiveStage::Finished
        } else {
            ExhaustiveStage::TryPartition
        },
        ExhaustiveStage::TryPartition => if must_exit {
            ExhaustiveStage::Finished
        } else {
            ExhaustiveStage::TryPartitionAgain
        },
        ExhaustiveStage::TryPartitionAgain => if must_exit || progress {
            ExhaustiveStage::Finished
        } else {
            ExhaustiveStage::StealAny
        },
        ExhaustiveStage::StealAny => if must_exit || progress {
            ExhaustiveStage::Finished
        } else {
            ExhaustiveStage::StealYield
        },
        ExhaustiveStage::StealYield => ExhaustiveStage::Finished,
        ExhaustiveStage::Finished => ExhaustiveStage::Finished,
    }
}

/// The state the worker's loop keeps between passes: the wheel time it last saw.
pub struct RunLoopState {
    pub now_ns: u64,
}

/// What happened in a run pass: whether shutdown was asked, whether a task ran,
/// whether a polled task pinned the generator, and the wheel's time after it.
#[derive(Clone, Copy, Debug, PartialEq, Eq, Structural)]
pub struct PassEvent {
    pub shutdown: bool,
    pub progress: bool,
    pub pinned: bool,
    pub now_ns: u64,
}

/// What the worker's loop does next.
#[derive(Clone, Copy, Debug, PartialEq, Eq, Structural)]
pub enum RunAction {
    /// Stop the loop.
    Shutdown,
    /// Give up the generator, which a task pinned, and start a fresh one.
    ExitGenerator,
    /// The wheel moved to a new tick: run the exhaustive pass (whose result is not
    /// counted), then expire timers and handle messages; what follows is
    /// `after_tick_pass` of whether anything made progress.
    TickPass,
    /// Nothing made progress: run the exhaustive pass, then park whatever it finds.
    IdlePass,
    /// Run the next pass.
    Continue,
}

/// The loop's decision after a pass, `st` being the wheel time it last saw; see
/// `RunAction`.
pub open spec fn run_decision(st: u64, ev: PassEvent) -> RunAction {
    if ev.shutdown {
        RunAction::Shutdown
    } else if ev.pinned {
        RunAction::ExitGenerator
    } else if ev.now_ns != st {
        RunAction::TickPass
    } else if !ev.progress {
        RunAction::IdlePass
    } else {
        RunAction::Continue
    }
}

/// What follows a tick pass, given whether the run pass before it, the expired
/// timers or the handled messages made progress (the tick pass's exhaustive pass
/// does not count): the idle pass when nothing did.
pub open spec fn after_tick_pass(progress: bool) -> RunAction {
    if progress {
        RunAction::Continue
    } else {
        RunAction::IdlePass
    }
}

/// The step after a tick pass; see `after_tick_pass`.
pub fn after_tick_step(progress: bool) -> (a: RunAction)
    ensures
        a == after_tick_pass(progress),
{
    if progress {
        RunAction::Continue
    } else {
        RunAction::IdlePass
    }
}

/// The time the loop keeps after a pass: the new wheel time once a tick pass runs.
pub open spec fn run_next(st: u64, ev: PassEvent) -> u64 {
    if run_decision(st, ev) == RunAction::TickPass {
        ev.now_ns
    } else {
        st
    }
}

/// The step of the worker's loop after a pass: what to do next, and the time it
/// keeps.
pub fn run_step(st: &mut RunLoopState, ev: PassEvent) -> (a: RunAction)
    ensures
        a == run_decision(old(st).now_ns, ev),
        final(st).now_ns == run_next(old(st).now_ns, ev),
{
    if ev.shutdown {
        RunAction::Shutdown
    } else if ev.pinned {
        RunAction::ExitGenerator
    } else if ev.now_ns != st.now_ns {
        st.now_ns = ev.now_ns;
        RunAction::TickPass
    } else if !ev.progress {
        RunAction::IdlePass
    } else {
        RunAction::Continue
    }
}

/// Why a worker's generator gave control back.
#[derive(Clone, Copy, Debug, PartialEq, Eq, Structural)]
pub enum GeneratorYieldReason {
    /// The worker is shutting down.
    Shutdown,
    /// A task pinned the generator and parked cooperatively.
    Cooperative,
    /// A task was preempted inside the generator.
    Preempted,
    /// The generator panicked.
    Panic,
}

/// Whether the worker keeps running after its generator gave control back for
/// `outcome`.
pub open spec fn keeps_running(outcome: GeneratorYieldReason) -> bool {
    outcome != GeneratorYieldReason::Shutdown
}

impl Worker {
    /// Books a generator's return: on shutdown it is dropped and the worker stops;
    /// with no task holding it, it is dropped and replaced; a task that pinned it
    /// cooperatively and asked to yield, or that was preempted, goes to the back of
    /// the yield queue with the waker's yield flag raised and counts as yielded (a
    /// preemption also counts as one); a panic drops it. Returns whether the worker
    /// keeps running.
    pub fn settle_generator_exit(
        &mut self,
        waker: &mut WorkerWaker,
        yield_queue: &mut Vec<(usize, usize)>,
        outcome: GeneratorYieldReason,
        task: Option<(usize, usize)>,
        yielded: bool,
    ) -> (r: bool)
        requires
            old(self).stats.generators_dropped < u64::MAX,
            old(self).stats.yielded_count < u64::MAX,
            old(self).stats.preempts < u64::MAX,
        ensures
            r == keeps_running(outcome),
            final(self).worker_id == old(self).worker_id,
            final(self).timer_wheel == old(self).timer_wheel,
            final(self).shutdown == old(self).shutdown,
            ({
                let requeue = task is Some && (outcome == GeneratorYieldReason::Preempted || (outcome
                    == GeneratorYieldReason::Cooperative && yielded));
                let dropped = outcome == GeneratorYieldReason::Shutdown || task is None;
                &&& final(yield_queue)@ == if requeue {
                    old(yield_queue)@.push(task->0)
                } else {
                    old(yield_queue)@
                }
                &&& final(waker)@ == if requeue {
                    flag_marked(old(waker)@, STATUS_BIT_YIELD)
                } else {
                    old(waker)@
                }
                &&& final(self).stats == (WorkerStats {
                    generators_dropped: if dropped {
                        (old(self).stats.generators_dropped + 1) as u64
                    } else {
                        old(self).stats.generators_dropped
                    },
                    yielded_count: if requeue {
                        (old(self).stats.yielded_count + 1) as u64
                    } else {
                        old(self).stats.yielded_count
                    },
                    preempts: if requeue && outcome == GeneratorYieldReason::Preempted {
                        (old(self).stats.preempts + 1) as u64
                    } else {
                        old(self).stats.preempts
                    },
                    ..old(self).stats
                })
            }),
    {
        if outcome == GeneratorYieldReason::Shutdown {
            self.stats.generators_dropped = self.stats.generators_dropped + 1;
            return false;
        }
        match task {
            Some(t) => {
                match outcome {
                    GeneratorYieldReason::Cooperative => {
                        if yielded {
                            yield_queue.push(t);
                            waker.mark_yield();
                            self.stats.yielded_count = self.stats.yielded_count + 1;
                        }
                    },
                    GeneratorYieldReason::Preempted => {
                        yield_queue.push(t);
                        waker.mark_yield();
                        self.stats.yielded_count = self.stats.yielded_count + 1;
                        self.stats.preempts = self.stats.preempts + 1;
                    },
                    _ => {},
                }
            },
            None => {
                self.stats.generators_dropped = self.stats.generators_dropped + 1;
            },
        }
        true
    }
}

/// `x + y`, or `u64::MAX` when that is larger.
pub open spec fn sat_add(x: u64, y: int) -> u64 {
    if x + y > u64::MAX {
        u64::MAX
    } else {
        (x + y) as u64
    }
}

impl Worker {
    /// A yield steal by the worker: its next draw is where the steal starts going
    /// round the workers (see `Scheduler::try_yield_steal`, with room for one task).
    /// When tasks were found the steal is counted (the workers tried as attempts, and
    /// one success, both saturating) and the oldest task of the worker's own yield
    /// queue is taken off it and returned; otherwise nothing changes but the draw.
    pub fn try_steal_yielded(&mut self, scheduler: &mut Scheduler) -> (r: Option<(usize, usize)>)
        requires
            old(scheduler).wf(),
            (old(self).worker_id as int) < old(scheduler).worker_count,
        ensures
            final(scheduler).wf(),
            *final(scheduler) == (Scheduler { yield_queues: final(scheduler).yield_queues, ..*old(scheduler) }),
            keeps_timers_and_partition(*old(self), *final(self)),
            final(self).seed == lcg_next(old(self).seed),
            ({
                let qs = old(scheduler).yield_view();
                let n = old(scheduler).worker_count as int;
                let me = old(self).worker_id as int;
                let start = first_draw(old(self).seed) as int;
                let d = first_hit_from(qs, start, me, n, 0);
                let st = yield_stolen(qs, me, ring_worker(start, d, n), 1);
                if d < n {
                    &&& r == Some(st[me][0])
                    &&& final(scheduler).yield_view() == st.update(me, st[me].drop_first())
                    &&& final(self).stats == (WorkerStats {
                        steal_attempts: sat_add(old(self).stats.steal_attempts, others_tried(start, me, d, n)),
                        steal_successes: sat_add(old(self).stats.steal_successes, 1),
                        ..old(self).stats
                    })
                } else {
                    &&& r is None
                    &&& final(scheduler).yield_view() == qs
                    &&& final(self).stats == old(self).stats
                }
            }),
    {
        let me = self.worker_id as usize;
        let ghost qs = scheduler.yield_view();
        let ghost n = scheduler.worker_count as int;
        let next_rand = self.next_u64() as usize;
        let (attempts, success) = scheduler.try_yield_steal(me, 1, next_rand);
        if !success {
            return None;
        }
        let ghost d = first_hit_from(qs, next_rand as int, me as int, n, 0);
        proof {
            let src = ring_worker(next_rand as int, d, n);
            lemma_first_hit(qs, next_rand as int, me as int, n, 0);
            assert(scheduler.yield_view()[me as int] =~= qs[me as int] + qs[src].take(1));
        }
        self.stats.steal_attempts = self.stats.steal_attempts.saturating_add(attempts);
        self.stats.steal_successes = self.stats.steal_successes.saturating_add(1);
        scheduler.pop_yielded(me)
    }
}

/// The first try that finds tasks does find tasks.
proof fn lemma_first_hit(qs: Seq<Seq<(usize, usize)>>, start: int, from: int, n: int, d: int)
    requires
        0 <= d <= n,
    ensures
        d <= first_hit_from(qs, start, from, n, d),
        first_hit_from(qs, start, from, n, d) < n ==> steal_hit(
            qs,
            start,
            from,
            first_hit_from(qs, start, from, n, d),
            n,
        ),
    decreases n - d,
{
    if d < n && !steal_hit(qs, start, from, d, n) {
        lemma_first_hit(qs, start, from, n, d + 1);
    }
}

} // verus!
