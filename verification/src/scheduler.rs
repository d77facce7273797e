use vstd::prelude::*;

use crate::summary::{leaf_full, res_index, reserved, Summary, SummaryState};
use crate::ticker::{
    base_duration, inserted, inserted_durations, interval_ok, new_handler, recalc_ok, recalced, sat_u64, TickService,
    TickServiceState,
};
use crate::timer::TimerHandle;
use crate::waker::{flag_marked, WakerState, WorkerWaker, STATUS_BIT_PARTITION};
use crate::wheel::{next_pow2_spec, pow2_at_least};

verus! {

/// A request to schedule a timer on another worker.
#[derive(Clone, Copy, Debug)]
pub struct TimerSchedule {
    pub handle: TimerHandle,
    pub deadline_ns: u64,
}

impl TimerSchedule {
    /// A request for `handle` at `deadline_ns`.
    pub fn new(handle: TimerHandle, deadline_ns: u64) -> (s: Self)
        ensures
            s.handle == handle,
            s.deadline_ns == deadline_ns,
    {
        TimerSchedule { handle, deadline_ns }
    }

    /// The timer's handle.
    pub fn handle(&self) -> (r: TimerHandle)
        ensures
            r == self.handle,
    {
        self.handle
    }

    /// The requested deadline.
    pub fn deadline_ns(&self) -> (r: u64)
        ensures
            r == self.deadline_ns,
    {
        self.deadline_ns
    }

    /// The handle and the deadline.
    pub fn into_parts(self) -> (r: (TimerHandle, u64))
        ensures
            r == (self.handle, self.deadline_ns),
    {
        (self.handle, self.deadline_ns)
    }
}

/// A batch of timer requests.
#[derive(Debug, Clone)]
pub struct TimerBatch {
    pub entries: Vec<TimerSchedule>,
}

impl TimerBatch {
    /// A batch of `entries`.
    pub fn new(entries: Vec<TimerSchedule>) -> (b: Self)
        ensures
            b.entries@ == entries@,
    {
        TimerBatch { entries }
    }

    /// A batch with no request.
    pub fn empty() -> (b: Self)
        ensures
            b.entries@.len() == 0,
    {
        TimerBatch { entries: Vec::new() }
    }

    /// Number of requests.
    pub fn len(&self) -> (r: usize)
        ensures
            r == self.entries@.len(),
    {
        self.entries.len()
    }

    /// Whether the batch holds no request.
    pub fn is_empty(&self) -> (r: bool)
        ensures
            r == (self.entries@.len() == 0),
    {
        self.entries.len() == 0
    }

    /// The requests, in order.
    pub fn iter(&self) -> (r: &[TimerSchedule])
        ensures
            r@ == self.entries@,
    {
        self.entries.as_slice()
    }

    /// The requests, in order.
    pub fn into_vec(self) -> (r: Vec<TimerSchedule>)
        ensures
            r@ == self.entries@,
    {
        self.entries
    }
}

/// Control messages between workers.
#[derive(Debug)]
pub enum WorkerMessage {
    ScheduleTimer { timer: TimerSchedule },
    ScheduleBatch { timers: TimerBatch },
    CancelTimer { worker_id: u32, timer_id: u64 },
    /// Report current health metrics.
    ReportHealth,
    /// Finish the current task, then exit.
    GracefulShutdown,
    /// Exit now.
    Shutdown,
    Noop,
}

/// Counters of a worker's activity.
#[derive(Debug, Clone, Copy)]
pub struct WorkerStats {
    pub tasks_polled: u64,
    pub completed_count: u64,
    pub yielded_count: u64,
    pub waiting_count: u64,
    pub cas_failures: u64,
    pub empty_scans: u64,
    pub yield_queue_polls: u64,
    pub signal_polls: u64,
    pub steal_attempts: u64,
    pub steal_successes: u64,
    pub leaf_summary_checks: u64,
    pub leaf_summary_hits: u64,
    pub leaf_steal_attempts: u64,
    pub leaf_steal_successes: u64,
    pub timer_fires: u64,
    pub preempts: u64,
    pub generators_created: u64,
    pub generators_dropped: u64,
}

/// Number of counters that `SchedulerStats::totals` adds up.
pub const SUMMED_STATS: usize = 18;

/// Counter `k` of `s`, in declaration order.
pub open spec fn stat_field(s: WorkerStats, k: int) -> u64 {
    if k == 0 {
        s.tasks_polled
    } else if k == 1 {
        s.completed_count
    } else if k == 2 {
        s.yielded_count
    } else if k == 3 {
        s.waiting_count
    } else if k == 4 {
        s.cas_failures
    } else if k == 5 {
        s.empty_scans
    } else if k == 6 {
        s.yield_queue_polls
    } else if k == 7 {
        s.signal_polls
    } else if k == 8 {
        s.steal_attempts
    } else if k == 9 {
        s.steal_successes
    } else if k == 10 {
        s.leaf_summary_checks
    } else if k == 11 {
        s.leaf_summary_hits
    } else if k == 12 {
        s.leaf_steal_attempts
    } else if k == 13 {
        s.leaf_steal_successes
    } else if k == 14 {
        s.timer_fires
    } else if k == 15 {
        s.preempts
    } else if k == 16 {
        s.generators_created
    } else {
        s.generators_dropped
    }
}

impl Default for WorkerStats {
    fn default() -> (s: Self)
        ensures
            forall|k: int| 0 <= k < SUMMED_STATS ==> #[trigger] stat_field(s, k) == 0,
            s.generators_created == 0,
            s.generators_dropped == 0,
    {
        WorkerStats {
            tasks_polled: 0,
            completed_count: 0,
            yielded_count: 0,
            waiting_count: 0,
            cas_failures: 0,
            empty_scans: 0,
            yield_queue_polls: 0,
            signal_polls: 0,
            steal_attempts: 0,
            steal_successes: 0,
            leaf_summary_checks: 0,
            leaf_summary_hits: 0,
            leaf_steal_attempts: 0,
            leaf_steal_successes: 0,
            timer_fires: 0,
            preempts: 0,
            generators_created: 0,
            generators_dropped: 0,
        }
    }
}

/// The state of one worker: its waker and its counters.
#[derive(Debug, Clone)]
pub struct WorkerSnapshot {
    pub worker_id: usize,
    pub permits: u64,
    pub sleepers: usize,
    pub status: u64,
    pub partition_summary: u64,
    pub stats: WorkerStats,
}

/// Statistics of a whole scheduler.
#[derive(Debug, Clone)]
pub struct SchedulerStats {
    pub worker_count: usize,
    pub per_worker: Vec<WorkerSnapshot>,
}

/// Counter `k` summed over `ws`.
pub open spec fn stat_sum(ws: Seq<WorkerSnapshot>, k: int) -> int
    decreases ws.len(),
{
    if ws.len() == 0 {
        0
    } else {
        stat_sum(ws.drop_last(), k) + stat_field(ws.last().stats, k)
    }
}

proof fn lemma_stat_sum_prefix(ws: Seq<WorkerSnapshot>, i: int, k: int)
    requires
        0 <= i <= ws.len(),
    ensures
        stat_sum(ws.take(i), k) <= stat_sum(ws, k),
        0 <= stat_sum(ws.take(i), k),
    decreases ws.len() - i,
{
    if i < ws.len() {
        lemma_stat_sum_prefix(ws, i + 1, k);
        assert(ws.take(i + 1).drop_last() =~= ws.take(i));
    } else {
        assert(ws.take(i) =~= ws);
    }
    lemma_stat_sum_nonneg(ws.take(i), k);
}

proof fn lemma_stat_sum_nonneg(ws: Seq<WorkerSnapshot>, k: int)
    ensures
        0 <= stat_sum(ws, k),
    decreases ws.len(),
{
    if ws.len() > 0 {
        lemma_stat_sum_nonneg(ws.drop_last(), k);
    }
}

impl SchedulerStats {
    /// Each counter summed over the workers.
    pub fn totals(&self) -> (t: WorkerStats)
        requires
            forall|k: int| 0 <= k < SUMMED_STATS ==> #[trigger] stat_sum(self.per_worker@, k) <= u64::MAX,
        ensures
            forall|k: int| 0 <= k < SUMMED_STATS ==> #[trigger] stat_field(t, k) == stat_sum(self.per_worker@, k),
    {
        let mut totals = WorkerStats::default();
        let ghost ws = self.per_worker@;
        let mut i: usize = 0;
        proof {
            assert(ws.take(0) =~= Seq::<WorkerSnapshot>::empty());
        }
        while i < self.per_worker.len()
            invariant
                ws == self.per_worker@,
                i <= ws.len(),
                forall|k: int| 0 <= k < SUMMED_STATS ==> #[trigger] stat_sum(ws, k) <= u64::MAX,
                forall|k: int| 0 <= k < SUMMED_STATS ==> #[trigger] stat_field(totals, k) == stat_sum(ws.take(i as int), k),
            decreases ws.len() - i,
        {
            proof {
                assert(ws.take(i + 1).drop_last() =~= ws.take(i as int));
                assert forall|k: int| 0 <= k < SUMMED_STATS implies #[trigger] stat_field(totals, k) + stat_field(
                    ws[i as int].stats,
                    k,
                ) == stat_sum(ws.take(i + 1), k) && stat_sum(ws.take(i + 1), k) <= u64::MAX by {
                    lemma_stat_sum_prefix(ws, i + 1, k);
                }
                assert(stat_field(totals, 0) + stat_field(ws[i as int].stats, 0) <= u64::MAX);
                assert(stat_field(totals, 1) + stat_field(ws[i as int].stats, 1) <= u64::MAX);
                assert(stat_field(totals, 2) + stat_field(ws[i as int].stats, 2) <= u64::MAX);
                assert(stat_field(totals, 3) + stat_field(ws[i as int].stats, 3) <= u64::MAX);
                assert(stat_field(totals, 4) + stat_field(ws[i as int].stats, 4) <= u64::MAX);
                assert(stat_field(totals, 5) + stat_field(ws[i as int].stats, 5) <= u64::MAX);
                assert(stat_field(totals, 6) + stat_field(ws[i as int].stats, 6) <= u64::MAX);
                assert(stat_field(totals, 7) + stat_field(ws[i as int].stats, 7) <= u64::MAX);
                assert(stat_field(totals, 8) + stat_field(ws[i as int].stats, 8) <= u64::MAX);
                assert(stat_field(totals, 9) + stat_field(ws[i as int].stats, 9) <= u64::MAX);
                assert(stat_field(totals, 10) + stat_field(ws[i as int].stats, 10) <= u64::MAX);
                assert(stat_field(totals, 11) + stat_field(ws[i as int].stats, 11) <= u64::MAX);
                assert(stat_field(totals, 12) + stat_field(ws[i as int].stats, 12) <= u64::MAX);
                assert(stat_field(totals, 13) + stat_field(ws[i as int].stats, 13) <= u64::MAX);
                assert(stat_field(totals, 14) + stat_field(ws[i as int].stats, 14) <= u64::MAX);
                assert(stat_field(totals, 15) + stat_field(ws[i as int].stats, 15) <= u64::MAX);
                assert(stat_field(totals, 16) + stat_field(ws[i as int].stats, 16) <= u64::MAX);
                assert(stat_field(totals, 17) + stat_field(ws[i as int].stats, 17) <= u64::MAX);
            }
            let s = &self.per_worker[i].stats;
            totals.tasks_polled = totals.tasks_polled + s.tasks_polled;
            totals.completed_count = totals.completed_count + s.completed_count;
            totals.yielded_count = totals.yielded_count + s.yielded_count;
            totals.waiting_count = totals.waiting_count + s.waiting_count;
            totals.cas_failures = totals.cas_failures + s.cas_failures;
            totals.empty_scans = totals.empty_scans + s.empty_scans;
            totals.yield_queue_polls = totals.yield_queue_polls + s.yield_queue_polls;
            totals.signal_polls = totals.signal_polls + s.signal_polls;
            totals.steal_attempts = totals.steal_attempts + s.steal_attempts;
            totals.steal_successes = totals.steal_successes + s.steal_successes;
            totals.leaf_summary_checks = totals.leaf_summary_checks + s.leaf_summary_checks;
            totals.leaf_summary_hits = totals.leaf_summary_hits + s.leaf_summary_hits;
            totals.leaf_steal_attempts = totals.leaf_steal_attempts + s.leaf_steal_attempts;
            totals.leaf_steal_successes = totals.leaf_steal_successes + s.leaf_steal_successes;
            totals.timer_fires = totals.timer_fires + s.timer_fires;
            totals.preempts = totals.preempts + s.preempts;
            totals.generators_created = totals.generators_created + s.generators_created;
            totals.generators_dropped = totals.generators_dropped + s.generators_dropped;
            i = i + 1;
        }
        proof {
            assert(ws.take(ws.len() as int) =~= ws);
        }
        totals
    }
}

/// A worker's health at one point in time.
#[derive(Debug, Clone)]
pub struct WorkerHealthSnapshot {
    pub worker_id: u32,
    pub timestamp_ns: u64,
    pub stats: WorkerStats,
    pub yield_queue_len: usize,
    pub mpsc_queue_len: usize,
    pub active_leaf_partitions: Vec<usize>,
    pub has_work: bool,
}

/// Counters of a worker's wake-ups.
#[derive(Debug, Clone, Copy)]
pub struct WakeStats {
    pub release_calls: u64,
    pub released_permits: u64,
    pub last_backlog: usize,
    pub max_backlog: usize,
    pub queue_release_calls: u64,
}

/// How a worker waits for work: spins before sleeping, then parks for at most
/// `park_timeout` (or until woken when there is none).
#[derive(Clone, Copy, Debug)]
pub struct WaitStrategy {
    pub spin_before_sleep: usize,
    pub park_timeout: Option<std::time::Duration>,
}

impl WaitStrategy {
    /// A strategy with the given spin count and park timeout.
    pub fn new(spin_before_sleep: usize, park_timeout: Option<std::time::Duration>) -> (w: Self)
        ensures
            w.spin_before_sleep == spin_before_sleep,
            w.park_timeout == park_timeout,
    {
        WaitStrategy { spin_before_sleep, park_timeout }
    }

    /// Never spins; parks with a zero timeout.
    pub fn non_blocking() -> (w: Self)
        ensures
            w.spin_before_sleep == 0,
            w.park_timeout == Some(duration_secs_spec(0)),
    {
        Self::new(0, Some(duration_from_secs(0)))
    }

    /// Never spins; parks until woken.
    pub fn park_immediately() -> (w: Self)
        ensures
            w.spin_before_sleep == 0,
            w.park_timeout is None,
    {
        Self::new(0, None)
    }
}

impl Default for WaitStrategy {
    fn default() -> (w: Self)
        ensures
            w.spin_before_sleep == 0,
            w.park_timeout == Some(duration_millis_spec(2000)),
    {
        Self::new(0, Some(duration_from_millis(2000)))
    }
}

/// The duration `Duration::from_secs` gives for `secs` seconds.
pub uninterp spec fn duration_secs_spec(secs: u64) -> std::time::Duration;

/// The duration `Duration::from_millis` gives for `millis` milliseconds.
pub uninterp spec fn duration_millis_spec(millis: u64) -> std::time::Duration;

/// The duration `Duration::from_nanos` gives for `nanos` nanoseconds.
pub uninterp spec fn duration_nanos_spec(nanos: u64) -> std::time::Duration;

/// Calls `std::time::Duration::from_nanos`; its result is named by
/// `duration_nanos_spec` (a duration is opaque here).
#[verifier::external_body]
fn duration_from_nanos(nanos: u64) -> (d: std::time::Duration)
    ensures
        d == duration_nanos_spec(nanos),
{
    std::time::Duration::from_nanos(nanos)
}

/// Calls `std::time::Duration::from_secs`; its result is named by
/// `duration_secs_spec` (a duration is opaque here).
#[verifier::external_body]
fn duration_from_secs(secs: u64) -> (d: std::time::Duration)
    ensures
        d == duration_secs_spec(secs),
{
    std::time::Duration::from_secs(secs)
}

/// Calls `std::time::Duration::from_millis`; its result is named by
/// `duration_millis_spec` (a duration is opaque here).
#[verifier::external_body]
fn duration_from_millis(millis: u64) -> (d: std::time::Duration)
    ensures
        d == duration_millis_spec(millis),
{
    std::time::Duration::from_millis(millis)
}

/// A tick duration made a power of two: the duration in nanoseconds, at least 1
/// and at most `u64::MAX`, rounded up to a power of two.
pub open spec fn normalized_tick_ns(nanos: u128) -> int {
    let n: int = if nanos < 1 {
        1
    } else if nanos > u64::MAX as u128 {
        u64::MAX as int
    } else {
        nanos as int
    };
    next_pow2_spec(n)
}

/// Makes a tick duration (in nanoseconds) a power of two; see `normalized_tick_ns`.
pub fn normalize_tick_duration_ns(nanos: u128) -> (r: u64)
    requires
        nanos <= 0x8000_0000_0000_0000u128,
    ensures
        r == normalized_tick_ns(nanos),
{
    let n: u64 = if nanos < 1 {
        1
    } else if nanos > u64::MAX as u128 {
        u64::MAX
    } else {
        nanos as u64
    };
    let mut p: u64 = 1;
    let ghost mut k: nat = 0;
    proof {
        vstd::arithmetic::power2::lemma2_to64();
    }
    while p < n
        invariant
            1 <= p <= 0x8000_0000_0000_0000u64,
            n <= 0x8000_0000_0000_0000u64,
            pow2_at_least(n as int, p as int) == next_pow2_spec(n as int),
            vstd::arithmetic::power2::pow2(k) == p,
            k <= 63,
        decreases 0x8000_0000_0000_0000u64 - p,
    {
        proof {
            vstd::arithmetic::power2::lemma2_to64();
            vstd::arithmetic::power2::lemma2_to64_rest();
            if k >= 63 {
                if k > 63 {
                    vstd::arithmetic::power2::lemma_pow2_strictly_increases(63, k);
                }
                assert(p >= 0x8000_0000_0000_0000u64);
            } else if k < 62 {
                vstd::arithmetic::power2::lemma_pow2_strictly_increases(k, 62);
            }
            vstd::arithmetic::power2::lemma_pow2_unfold(k + 1);
        }
        p = p * 2;
        proof {
            k = k + 1;
        }
    }
    p
}

/// The join side of a spawned task: the task's result once it has completed. It is
/// pending until `complete`, ready after, and its result can be taken once.
pub struct JoinState<T> {
    ready: bool,
    result: Option<T>,
}

/// Where a join state stands.
pub enum JoinPhase<T> {
    Pending,
    Ready(T),
    Taken,
}

impl<T> View for JoinState<T> {
    type V = JoinPhase<T>;

    closed spec fn view(&self) -> JoinPhase<T> {
        if !self.ready {
            JoinPhase::Pending
        } else {
            match self.result {
                Some(v) => JoinPhase::Ready(v),
                None => JoinPhase::Taken,
            }
        }
    }
}

impl<T> JoinState<T> {
    /// A result holds only in a completed state.
    pub closed spec fn wf(&self) -> bool {
        self.result is Some ==> self.ready
    }

    /// A pending join state.
    pub fn new() -> (j: Self)
        ensures
            j.wf(),
            j@ is Pending,
    {
        JoinState { ready: false, result: None }
    }

    /// Stores the task's result and marks the state ready.
    pub fn complete(&mut self, value: T)
        ensures
            final(self).wf(),
            final(self)@ == JoinPhase::Ready(value),
    {
        self.result = Some(value);
        self.ready = true;
    }

    /// Whether the task has completed (its result may have been taken since).
    pub fn is_ready(&self) -> (r: bool)
        requires
            self.wf(),
        ensures
            r == !(self@ is Pending),
    {
        self.ready
    }

    /// Takes the result of a completed task; the state stays completed, with no result
    /// left to take.
    pub fn take_result(&mut self) -> (r: T)
        requires
            old(self).wf(),
            old(self)@ is Ready,
        ensures
            final(self).wf(),
            old(self)@ == JoinPhase::Ready(r),
            final(self)@ is Taken,
    {
        self.result.take().unwrap()
    }
}

/// Why a task could not be spawned.
#[derive(Clone, Copy, Debug, PartialEq, Eq, Structural)]
pub enum SpawnError {
    /// The scheduler is shutting down or the arena is closed.
    Closed,
    /// Every task slot is taken.
    NoCapacity,
    /// The future could not be attached to the reserved task.
    AttachFailed,
}

/// Most workers a scheduler runs.
pub const MAX_WORKER_LIMIT: usize = 512;

/// The number of workers a scheduler runs for a requested count: at least one, at
/// most `MAX_WORKER_LIMIT`.
pub open spec fn clamped_worker_count(requested: usize) -> usize {
    if requested < 1 {
        1
    } else if requested > MAX_WORKER_LIMIT {
        MAX_WORKER_LIMIT
    } else {
        requested
    }
}

/// The scheduler's bookkeeping of its workers: their wakers, their last reported
/// counters, which of them run, the time each last saw, the shared clock and the
/// shutdown flag. Threads, channels, the task arena and the timer wheels stay with
/// the caller.
pub struct Scheduler {
    pub worker_count: usize,
    pub configured_tick_ns: u64,
    pub tick_duration_ns: u64,
    pub clock_ns: u64,
    pub wakers: Vec<WorkerWaker>,
    pub worker_stats: Vec<WorkerStats>,
    pub worker_actives: Vec<u64>,
    pub worker_now_ns: Vec<u64>,
    pub shutdown: bool,
    pub tick_health_check_interval: u64,
    pub total_tasks: u64,
    pub yield_queues: Vec<Vec<(usize, usize)>>,
}

/// The worker a yield steal looks at on its try `d`, going round the `n` workers
/// from the draw `start`.
pub open spec fn ring_worker(start: int, d: int, n: int) -> int {
    (start % n + d) % n
}

/// How many of the first `d` tries of a yield steal for worker `from` look at
/// another worker.
pub open spec fn others_tried(start: int, from: int, d: int, n: int) -> int
    decreases d,
{
    if d <= 0 {
        0
    } else {
        others_tried(start, from, d - 1, n) + if ring_worker(start, d - 1, n) != from {
            1int
        } else {
            0int
        }
    }
}

/// Whether try `d` of a yield steal for worker `from` finds tasks: it looks at
/// another worker whose yield queue holds some.
pub open spec fn steal_hit(qs: Seq<Seq<(usize, usize)>>, start: int, from: int, d: int, n: int) -> bool {
    ring_worker(start, d, n) != from && qs[ring_worker(start, d, n)].len() > 0
}

/// The first try from `d` on (below `n`) of a yield steal for worker `from` that
/// finds tasks, or `n` when none does.
pub open spec fn first_hit_from(qs: Seq<Seq<(usize, usize)>>, start: int, from: int, n: int, d: int) -> int
    decreases n - d,
{
    if d >= n {
        n
    } else if steal_hit(qs, start, from, d, n) {
        d
    } else {
        first_hit_from(qs, start, from, n, d + 1)
    }
}

/// The yield queues after worker `from` moves up to `limit` of the oldest tasks of
/// worker `src`'s queue to the back of its own.
pub open spec fn yield_stolen(qs: Seq<Seq<(usize, usize)>>, from: int, src: int, limit: int) -> Seq<
    Seq<(usize, usize)>,
> {
    let m = if limit < qs[src].len() {
        limit
    } else {
        qs[src].len() as int
    };
    qs.update(src, qs[src].skip(m)).update(from, qs[from] + qs[src].take(m))
}

/// The workers marked running, in order.
pub open spec fn active_workers(actives: Seq<u64>) -> Seq<usize>
    decreases actives.len(),
{
    if actives.len() == 0 {
        seq![]
    } else {
        let rest = active_workers(actives.drop_last());
        if actives.last() != 0 {
            rest.push((actives.len() - 1) as usize)
        } else {
            rest
        }
    }
}

/// The wakers after the partition bit is set on each running worker's waker.
pub open spec fn woken(wakers: Seq<WakerState>, actives: Seq<u64>) -> Seq<WakerState> {
    Seq::new(
        wakers.len(),
        |i: int|
            if actives[i] != 0 {
                flag_marked(wakers[i], STATUS_BIT_PARTITION)
            } else {
                wakers[i]
            },
    )
}

impl Scheduler {
    /// The bookkeeping's consistency: an entry per worker, and a positive health
    /// check interval.
    pub open spec fn wf(&self) -> bool {
        &&& self.wakers@.len() == self.worker_count
        &&& self.worker_stats@.len() == self.worker_count
        &&& self.worker_actives@.len() == self.worker_count
        &&& self.worker_now_ns@.len() == self.worker_count
        &&& self.yield_queues@.len() == self.worker_count
        &&& self.worker_count <= MAX_WORKER_LIMIT
        &&& self.tick_health_check_interval > 0
    }

    /// The tasks in each worker's yield queue, oldest first.
    pub open spec fn yield_view(&self) -> Seq<Seq<(usize, usize)>> {
        self.yield_queues@.map_values(|q: Vec<(usize, usize)>| q@)
    }

    /// The wakers' states.
    pub open spec fn waker_states(&self) -> Seq<WakerState> {
        self.wakers@.map_values(|w: WorkerWaker| w@)
    }

    /// Bookkeeping for the workers asked for, at least one and at most
    /// `MAX_WORKER_LIMIT`, all idle, with the tick made a power of two (see
    /// `normalize_tick_duration_ns`) and a health check every 100 ticks.
    #[verifier::spinoff_prover]
    pub fn new(requested_workers: usize, tick_duration_ns: u128) -> (s: Self)
        requires
            tick_duration_ns <= 0x8000_0000_0000_0000u128,
        ensures
            s.wf(),
            s.worker_count == clamped_worker_count(requested_workers),
            s.configured_tick_ns == tick_duration_ns,
            s.tick_duration_ns == normalized_tick_ns(tick_duration_ns),
            s.clock_ns == 0,
            !s.shutdown,
            s.tick_health_check_interval == 100,
            s.total_tasks == 0,
            forall|i: int| 0 <= i < s.worker_count ==> #[trigger] s.worker_actives@[i] == 0 && s.worker_now_ns@[i] == 0,
            forall|i: int| 0 <= i < s.worker_count ==> #[trigger] s.yield_view()[i].len() == 0,
    {
        let worker_count = if requested_workers < 1 {
            1
        } else if requested_workers > MAX_WORKER_LIMIT {
            MAX_WORKER_LIMIT
        } else {
            requested_workers
        };
        let mut wakers: Vec<WorkerWaker> = Vec::new();
        let mut worker_stats: Vec<WorkerStats> = Vec::new();
        let mut worker_actives: Vec<u64> = Vec::new();
        let mut worker_now_ns: Vec<u64> = Vec::new();
        let mut yield_queues: Vec<Vec<(usize, usize)>> = Vec::new();
        let mut i: usize = 0;
        while i < worker_count
            invariant
                i <= worker_count,
                yield_queues@.len() == i,
                forall|k: int| 0 <= k < i ==> (#[trigger] yield_queues@[k])@.len() == 0,
                wakers@.len() == i,
                worker_stats@.len() == i,
                worker_actives@.len() == i,
                worker_now_ns@.len() == i,
                forall|k: int| 0 <= k < i ==> #[trigger] worker_actives@[k] == 0 && worker_now_ns@[k] == 0,
            decreases worker_count - i,
        {
            wakers.push(WorkerWaker::new());
            worker_stats.push(WorkerStats::default());
            worker_actives.push(0);
            worker_now_ns.push(0);
            yield_queues.push(Vec::new());
            i = i + 1;
        }
        Scheduler {
            worker_count,
            configured_tick_ns: tick_duration_ns as u64,
            tick_duration_ns: normalize_tick_duration_ns(tick_duration_ns),
            clock_ns: 0,
            wakers,
            worker_stats,
            worker_actives,
            worker_now_ns,
            shutdown: false,
            tick_health_check_interval: 100,
            total_tasks: 0,
            yield_queues,
        }
    }

    /// Reserves a task slot in the summary: `None` when the arena is closed or every
    /// slot is taken (see `Summary::reserve_task`); a reserved slot counts one more
    /// task (wrapping).
    pub fn reserve_task(&mut self, summary: &mut Summary, arena_closed: bool) -> (r: Option<(usize, usize, u8)>)
        requires
            old(summary).wf(),
        ensures
            final(summary).wf(),
            final(self).total_tasks == if r is Some {
                old(self).total_tasks.wrapping_add(1)
            } else {
                old(self).total_tasks
            },
            *final(self) == (Scheduler { total_tasks: final(self).total_tasks, ..*old(self) }),
            arena_closed ==> r is None && final(summary)@ == old(summary)@,
            !arena_closed ==> {
                let s = SummaryState { next_partition: final(summary)@.next_partition, ..old(summary)@ };
                &&& final(summary)@.next_partition == old(summary)@.next_partition.wrapping_add(1)
                &&& r is None <==> forall|l: int| 0 <= l < old(summary)@.leaf_count ==> #[trigger] leaf_full(old(summary)@, l)
                &&& r is None ==> final(summary)@ == s
                &&& r matches Some(t) ==> reserved(s, final(summary)@, t)
            },
    {
        if arena_closed {
            return None;
        }
        let r = summary.reserve_task();
        if r.is_some() {
            self.total_tasks = self.total_tasks.wrapping_add(1);
        }
        r
    }

    /// Gives a reserved task slot back to the summary and counts one task less
    /// (wrapping).
    pub fn release_task(&mut self, summary: &mut Summary, leaf_idx: usize, signal_idx: usize, bit: u8)
        requires
            old(summary).wf(),
        ensures
            final(summary).wf(),
            *final(self) == (Scheduler { total_tasks: old(self).total_tasks.wrapping_sub(1), ..*old(self) }),
            ({
                let s = old(summary)@;
                let idx = res_index(s, leaf_idx as int, signal_idx as int);
                if leaf_idx < s.leaf_count && signal_idx < s.signals_per_leaf && bit < 64 {
                    final(summary)@ == SummaryState {
                        reservations: s.reservations.update(idx, s.reservations[idx] & !(1u64 << (bit as usize))),
                        ..s
                    }
                } else {
                    final(summary)@ == s
                }
            }),
    {
        summary.release_task_in_leaf(leaf_idx, signal_idx, bit as usize);
        self.total_tasks = self.total_tasks.wrapping_sub(1);
    }

    /// The admission half of spawning: refused as `Closed` while shutting down or with
    /// the arena closed, as `NoCapacity` when every slot is taken; otherwise the slot
    /// reserved for the task, to which the caller attaches the future before
    /// scheduling it.
    pub fn reserve_for_spawn(&mut self, summary: &mut Summary, arena_closed: bool) -> (r: Result<(usize, usize, u8), SpawnError>)
        requires
            old(summary).wf(),
        ensures
            final(summary).wf(),
            final(self).total_tasks == if r is Ok {
                old(self).total_tasks.wrapping_add(1)
            } else {
                old(self).total_tasks
            },
            *final(self) == (Scheduler { total_tasks: final(self).total_tasks, ..*old(self) }),
            old(self).shutdown || arena_closed ==> r == Err::<(usize, usize, u8), SpawnError>(SpawnError::Closed)
                && final(summary)@ == old(summary)@,
            !old(self).shutdown && !arena_closed ==> {
                let s = SummaryState { next_partition: final(summary)@.next_partition, ..old(summary)@ };
                &&& final(summary)@.next_partition == old(summary)@.next_partition.wrapping_add(1)
                &&& r == Err::<(usize, usize, u8), SpawnError>(SpawnError::NoCapacity) <==> forall|l: int|
                    0 <= l < old(summary)@.leaf_count ==> #[trigger] leaf_full(old(summary)@, l)
                &&& r is Err ==> r == Err::<(usize, usize, u8), SpawnError>(SpawnError::NoCapacity)
                    && final(summary)@ == s
                &&& r matches Ok(t) ==> reserved(s, final(summary)@, t)
            },
    {
        if self.shutdown || arena_closed {
            return Err(SpawnError::Closed);
        }
        match self.reserve_task(summary, arena_closed) {
            Some(t) => Ok(t),
            None => Err(
                if arena_closed {
                    SpawnError::Closed
                } else {
                    SpawnError::NoCapacity
                },
            ),
        }
    }

    /// Registers the scheduler's tick handler with the tick service, given the
    /// periods of the handlers registered there: a handler whose period is the tick
    /// duration the scheduler was configured with (see `TickService::register`). The
    /// service's base tick is then at most that duration.
    pub fn register_tick_handler(&self, service: &mut TickService, durations: Vec<Option<u128>>) -> (r: Option<u64>)
        requires
            old(service).wf(),
            durations@.len() == old(service)@.handlers.len(),
            interval_ok(self.configured_tick_ns, old(service)@.tick_duration_ns),
            recalc_ok(
                inserted_durations(
                    old(service)@.handlers,
                    durations@,
                    old(service)@.next_handler_id,
                    self.configured_tick_ns as u128,
                ),
                old(service)@.default_tick_duration_ns,
            ),
        ensures
            final(service).wf(),
            ({
                let o = old(service)@;
                let d = self.configured_tick_ns as u128;
                let st = new_handler(o.next_handler_id, d, o.tick_duration_ns);
                let hs = inserted(o.handlers, st);
                let ds = inserted_durations(o.handlers, durations@, o.next_handler_id, d);
                let b = base_duration(ds, o.default_tick_duration_ns);
                &&& r == Some(o.next_handler_id)
                &&& final(service)@ == (TickServiceState {
                    tick_duration_ns: b,
                    handlers: recalced(hs, ds, b),
                    next_handler_id: vstd::wrapping::u64_specs::wrapping_add(o.next_handler_id, 1),
                    ..o
                })
            }),
            final(service)@.tick_duration_ns <= self.configured_tick_ns,
    {
        let ghost o = service@;
        let ghost ds = inserted_durations(o.handlers, durations@, o.next_handler_id, self.configured_tick_ns as u128);
        proof {
            assert(sat_u64(self.configured_tick_ns as u128) == self.configured_tick_ns);
            crate::ticker::lemma_base_is_smallest_live_period(ds, o.default_tick_duration_ns);
            let k = crate::ticker::id_index(o.handlers, o.next_handler_id);
            crate::ticker::lemma_id_index_bounds(o.handlers, o.next_handler_id);
            let j = if k >= 0 {
                k
            } else {
                durations@.len() as int
            };
            assert(ds[j] == Some(self.configured_tick_ns as u128));
            assert(ds[j] is Some);
        }
        service.register(self.configured_tick_ns as u128, durations)
    }

    /// A yield steal for worker `from`: the workers are tried going round from the
    /// draw `next_rand`, skipping `from`, and the first whose yield queue holds tasks
    /// gives up to `limit` of its oldest to the back of `from`'s queue. Returns how
    /// many other workers were tried before it, and whether one was found.
    pub fn try_yield_steal(&mut self, from: usize, limit: usize, next_rand: usize) -> (r: (u64, bool))
        requires
            old(self).wf(),
            from < old(self).worker_count,
        ensures
            final(self).wf(),
            *final(self) == (Scheduler { yield_queues: final(self).yield_queues, ..*old(self) }),
            ({
                let qs = old(self).yield_view();
                let n = old(self).worker_count as int;
                let d = first_hit_from(qs, next_rand as int, from as int, n, 0);
                &&& r.1 == (d < n)
                &&& r.0 == others_tried(next_rand as int, from as int, d, n)
                &&& final(self).yield_view() == if d < n {
                    yield_stolen(qs, from as int, ring_worker(next_rand as int, d, n), limit as int)
                } else {
                    qs
                }
            }),
    {
        let n = self.worker_count;
        let ghost qs = self.yield_view();
        let base = next_rand % n;
        let mut attempts: u64 = 0;
        let mut d: usize = 0;
        while d < n
            invariant
                self == old(self),
                qs == old(self).yield_view(),
                n == old(self).worker_count,
                old(self).wf(),
                from < n,
                base == next_rand % n,
                d <= n,
                attempts == others_tried(next_rand as int, from as int, d as int, n as int),
                attempts <= d,
                first_hit_from(qs, next_rand as int, from as int, n as int, 0) == first_hit_from(
                    qs,
                    next_rand as int,
                    from as int,
                    n as int,
                    d as int,
                ),
            decreases n - d,
        {
            let w = (base + d) % n;
            proof {
                assert(self.yield_view()[w as int] == self.yield_queues@[w as int]@);
            }
            if w != from && self.yield_queues[w].len() > 0 {
                proof {
                    assert(steal_hit(qs, next_rand as int, from as int, d as int, n as int));
                }
                self.move_yielded(from, w, limit);
                return (attempts, true);
            }
            if w != from {
                attempts = attempts + 1;
            }
            d = d + 1;
        }
        (attempts, false)
    }

    /// Takes the oldest task off worker `me`'s yield queue, if it holds one.
    pub fn pop_yielded(&mut self, me: usize) -> (t: Option<(usize, usize)>)
        requires
            old(self).wf(),
            me < old(self).worker_count,
        ensures
            final(self).wf(),
            *final(self) == (Scheduler { yield_queues: final(self).yield_queues, ..*old(self) }),
            old(self).yield_view()[me as int].len() == 0 ==> t is None && final(self).yield_view() == old(
                self,
            ).yield_view(),
            old(self).yield_view()[me as int].len() > 0 ==> t == Some(old(self).yield_view()[me as int][0])
                && final(self).yield_view() == old(self).yield_view().update(
                me as int,
                old(self).yield_view()[me as int].drop_first(),
            ),
    {
        let ghost qs = self.yield_view();
        let mut own: Vec<(usize, usize)> = Vec::new();
        self.yield_queues.set_and_swap(me, &mut own);
        proof {
            assert(own@ == qs[me as int]);
        }
        if own.len() == 0 {
            self.yield_queues.set_and_swap(me, &mut own);
            proof {
                assert(self.yield_view() =~= qs);
            }
            return None;
        }
        let t = own.remove(0);
        proof {
            assert(own@ =~= qs[me as int].drop_first());
        }
        self.yield_queues.set_and_swap(me, &mut own);
        proof {
            assert(self.yield_view() =~= qs.update(me as int, qs[me as int].drop_first()));
        }
        Some(t)
    }

    /// Moves up to `limit` of the oldest tasks of worker `src`'s yield queue to the
    /// back of worker `from`'s.
    fn move_yielded(&mut self, from: usize, src: usize, limit: usize)
        requires
            old(self).wf(),
            from < old(self).worker_count,
            src < old(self).worker_count,
            from != src,
        ensures
            final(self).wf(),
            *final(self) == (Scheduler { yield_queues: final(self).yield_queues, ..*old(self) }),
            final(self).yield_view() == yield_stolen(old(self).yield_view(), from as int, src as int, limit as int),
    {
        let ghost qs = self.yield_view();
        let mut taken: Vec<(usize, usize)> = Vec::new();
        self.yield_queues.set_and_swap(src, &mut taken);
        let mut own: Vec<(usize, usize)> = Vec::new();
        self.yield_queues.set_and_swap(from, &mut own);
        let m = if limit < taken.len() {
            limit
        } else {
            taken.len()
        };
        let ghost s0 = taken@;
        let ghost o0 = own@;
        let mut rest: Vec<(usize, usize)> = Vec::new();
        let mut k: usize = 0;
        while k < taken.len()
            invariant
                taken@ == s0,
                m <= s0.len(),
                k <= s0.len(),
                own@ == if k <= m {
                    o0 + s0.take(k as int)
                } else {
                    o0 + s0.take(m as int)
                },
                rest@ == if k <= m {
                    Seq::<(usize, usize)>::empty()
                } else {
                    s0.subrange(m as int, k as int)
                },
            decreases s0.len() - k,
        {
            if k < m {
                own.push(taken[k]);
                proof {
                    assert(s0.take(k as int + 1) =~= s0.take(k as int).push(s0[k as int]));
                }
            } else {
                rest.push(taken[k]);
                proof {
                    assert(s0.subrange(m as int, k as int + 1) =~= s0.subrange(m as int, k as int).push(s0[k as int]));
                }
            }
            k = k + 1;
        }
        proof {
            assert(rest@ =~= s0.skip(m as int));
        }
        self.yield_queues.set_and_swap(src, &mut rest);
        self.yield_queues.set_and_swap(from, &mut own);
        proof {
            assert(self.yield_view() =~= yield_stolen(qs, from as int, src as int, limit as int));
        }
    }

    /// The tick duration the scheduler was configured with.
    pub fn tick_duration(&self) -> (d: std::time::Duration)
        ensures
            d == duration_nanos_spec(self.configured_tick_ns),
    {
        duration_from_nanos(self.configured_tick_ns)
    }

    /// The number of tasks reserved and not released.
    pub fn total_tasks(&self) -> (r: u64)
        ensures
            r == self.total_tasks,
    {
        self.total_tasks
    }

    /// The number of workers.
    pub fn worker_count(&self) -> (r: usize)
        ensures
            r == self.worker_count,
    {
        self.worker_count
    }

    /// The shared clock.
    pub fn clock_ns(&self) -> (r: u64)
        ensures
            r == self.clock_ns,
    {
        self.clock_ns
    }

    /// Whether worker `worker_id` has something to do, as its waker shows (a summary
    /// or a status bit); `false` for an unknown worker.
    pub fn worker_has_work(&self, worker_id: usize) -> (r: bool)
        ensures
            r == (worker_id < self.wakers@.len() && (self.wakers@[worker_id as int]@.status
                & crate::waker::STATUS_SUMMARY_MASK != 0 || self.wakers@[worker_id as int]@.status != 0)),
    {
        if worker_id >= self.wakers.len() {
            return false;
        }
        let summary = self.wakers[worker_id].snapshot_summary();
        let status = self.wakers[worker_id].status();
        summary != 0 || status != 0
    }

    /// A snapshot of every worker: its waker's permits, sleepers, status and
    /// partition summary, and its last reported counters.
    pub fn aggregate_stats(&self) -> (r: SchedulerStats)
        requires
            self.wf(),
        ensures
            r.worker_count == self.worker_count,
            r.per_worker@.len() == self.worker_count,
            forall|i: int|
                0 <= i < self.worker_count ==> {
                    let w = #[trigger] r.per_worker@[i];
                    &&& w.worker_id == i
                    &&& w.permits == self.wakers@[i]@.permits
                    &&& w.sleepers == self.wakers@[i]@.sleepers
                    &&& w.status == self.wakers@[i]@.status
                    &&& w.partition_summary == self.wakers@[i]@.partition_summary
                    &&& w.stats == self.worker_stats@[i]
                },
    {
        let mut per_worker: Vec<WorkerSnapshot> = Vec::new();
        let mut i: usize = 0;
        while i < self.worker_count
            invariant
                self.wf(),
                i <= self.worker_count,
                per_worker@.len() == i,
                forall|k: int|
                    0 <= k < i ==> {
                        let w = #[trigger] per_worker@[k];
                        &&& w.worker_id == k
                        &&& w.permits == self.wakers@[k]@.permits
                        &&& w.sleepers == self.wakers@[k]@.sleepers
                        &&& w.status == self.wakers@[k]@.status
                        &&& w.partition_summary == self.wakers@[k]@.partition_summary
                        &&& w.stats == self.worker_stats@[k]
                    },
            decreases self.worker_count - i,
        {
            let waker = &self.wakers[i];
            per_worker.push(
                WorkerSnapshot {
                    worker_id: i,
                    permits: waker.permits(),
                    sleepers: waker.sleepers(),
                    status: waker.status(),
                    partition_summary: waker.partition_summary(),
                    stats: self.worker_stats[i],
                },
            );
            i = i + 1;
        }
        SchedulerStats { worker_count: self.worker_count, per_worker }
    }

    /// Stores the counters a worker reports when it stops.
    pub fn store_worker_stats(&mut self, worker_id: usize, stats: WorkerStats)
        requires
            old(self).wf(),
            worker_id < old(self).worker_count,
        ensures
            final(self).wf(),
            final(self).worker_stats@ == old(self).worker_stats@.update(worker_id as int, stats),
            final(self).worker_actives@ == old(self).worker_actives@,
            final(self).wakers@ == old(self).wakers@,
    {
        self.worker_stats.set(worker_id, stats);
    }

    /// Marks worker `worker_id` running or stopped.
    pub fn set_worker_active(&mut self, worker_id: usize, active: bool)
        requires
            old(self).wf(),
            worker_id < old(self).worker_count,
        ensures
            final(self).wf(),
            final(self).worker_actives@ == old(self).worker_actives@.update(
                worker_id as int,
                if active {
                    1u64
                } else {
                    0u64
                },
            ),
            final(self).wakers@ == old(self).wakers@,
            final(self).shutdown == old(self).shutdown,
    {
        self.worker_actives.set(worker_id, if active { 1 } else { 0 });
    }

    /// A tick of the shared clock at `now_ns`: the clock and every worker's time are
    /// set to it; whether a health check is due (every so many ticks).
    pub fn on_tick(&mut self, tick_count: u64, now_ns: u64) -> (r: bool)
        requires
            old(self).wf(),
        ensures
            final(self).wf(),
            r == (tick_count % old(self).tick_health_check_interval == 0),
            final(self).clock_ns == now_ns,
            final(self).worker_now_ns@ == Seq::new(old(self).worker_count as nat, |i: int| now_ns),
            final(self).worker_actives@ == old(self).worker_actives@,
            final(self).wakers@ == old(self).wakers@,
            final(self).shutdown == old(self).shutdown,
    {
        self.clock_ns = now_ns;
        let mut i: usize = 0;
        while i < self.worker_count
            invariant
                self.wf(),
                self.worker_actives@ == old(self).worker_actives@,
                self.wakers@ == old(self).wakers@,
                self.worker_count == old(self).worker_count,
                self.tick_health_check_interval == old(self).tick_health_check_interval,
                self.shutdown == old(self).shutdown,
                self.clock_ns == now_ns,
                i <= self.worker_count,
                forall|k: int| 0 <= k < i ==> #[trigger] self.worker_now_ns@[k] == now_ns,
            decreases self.worker_count - i,
        {
            self.worker_now_ns.set(i, now_ns);
            i = i + 1;
        }
        proof {
            assert(self.worker_now_ns@ =~= Seq::new(old(self).worker_count as nat, |i: int| now_ns));
        }
        tick_count % self.tick_health_check_interval == 0
    }

    /// The running workers, which are asked for a health report.
    pub fn supervisor_health_check(&self, now_ns: u64) -> (r: Vec<usize>)
        requires
            self.wf(),
        ensures
            r@ == active_workers(self.worker_actives@),
    {
        self.active_worker_ids()
    }

    /// The running workers, in order.
    fn active_worker_ids(&self) -> (r: Vec<usize>)
        requires
            self.wf(),
        ensures
            r@ == active_workers(self.worker_actives@),
    {
        let mut ids: Vec<usize> = Vec::new();
        let mut i: usize = 0;
        while i < self.worker_count
            invariant
                self.wf(),
                i <= self.worker_count,
                ids@ == active_workers(self.worker_actives@.take(i as int)),
            decreases self.worker_count - i,
        {
            proof {
                assert(self.worker_actives@.take(i as int + 1).drop_last() =~= self.worker_actives@.take(i as int));
            }
            if self.worker_actives[i] != 0 {
                ids.push(i);
            }
            i = i + 1;
        }
        proof {
            assert(self.worker_actives@.take(i as int) =~= self.worker_actives@);
        }
        ids
    }

    /// Sets the partition bit on every running worker's waker, so it wakes.
    fn wake_active_workers(&mut self)
        requires
            old(self).wf(),
        ensures
            final(self).wf(),
            final(self).waker_states() == woken(old(self).waker_states(), old(self).worker_actives@),
            final(self).worker_actives@ == old(self).worker_actives@,
            final(self).shutdown == old(self).shutdown,
            final(self).worker_count == old(self).worker_count,
    {
        let mut i: usize = 0;
        while i < self.worker_count
            invariant
                self.wf(),
                old(self).wf(),
                self.worker_count == old(self).worker_count,
                self.worker_actives@ == old(self).worker_actives@,
                self.shutdown == old(self).shutdown,
                i <= self.worker_count,
                forall|k: int|
                    0 <= k < i ==> #[trigger] self.waker_states()[k] == woken(
                        old(self).waker_states(),
                        old(self).worker_actives@,
                    )[k],
                forall|k: int| i <= k < self.worker_count ==> #[trigger] self.waker_states()[k] == old(self).waker_states()[k],
            decreases self.worker_count - i,
        {
            let ghost states0 = self.waker_states();
            if self.worker_actives[i] != 0 {
                let ghost before = self.wakers@;
                let ghost states = self.waker_states();
                self.wakers[i].mark_tasks();
                proof {
                    assert(self.wakers@ == before.update(i as int, self.wakers@[i as int]));
                    assert(self.waker_states() =~= states.update(
                        i as int,
                        flag_marked(states[i as int], STATUS_BIT_PARTITION),
                    ));
                    assert(old(self).worker_actives@[i as int] != 0);
                    assert(states[i as int] == old(self).waker_states()[i as int]);
                    assert(self.waker_states()[i as int] == woken(old(self).waker_states(), old(self).worker_actives@)[i as int]);
                }
            } else {
                proof {
                    assert(old(self).worker_actives@[i as int] == 0);
                    assert(self.waker_states()[i as int] == woken(old(self).waker_states(), old(self).worker_actives@)[i as int]);
                }
            }
            proof {
                let w = woken(old(self).waker_states(), old(self).worker_actives@);
                assert forall|k: int| 0 <= k < i + 1 implies #[trigger] self.waker_states()[k] == w[k] by {
                    if k < i {
                        assert(self.waker_states()[k] == states0[k]);
                    }
                }
                assert forall|k: int| i + 1 <= k < self.worker_count implies #[trigger] self.waker_states()[k] == old(
                    self,
                ).waker_states()[k] by {
                    assert(self.waker_states()[k] == states0[k]);
                }
            }
            i = i + 1;
        }
        proof {
            assert(self.waker_states() =~= woken(old(self).waker_states(), old(self).worker_actives@));
        }
    }

    /// Graceful shutdown: the running workers, which are sent a graceful shutdown
    /// message, have their wakers' partition bit set so they wake.
    pub fn supervisor_graceful_shutdown(&mut self) -> (r: Vec<usize>)
        requires
            old(self).wf(),
        ensures
            final(self).wf(),
            r@ == active_workers(old(self).worker_actives@),
            final(self).waker_states() == woken(old(self).waker_states(), old(self).worker_actives@),
            final(self).worker_actives@ == old(self).worker_actives@,
            final(self).shutdown == old(self).shutdown,
    {
        let ids = self.active_worker_ids();
        self.wake_active_workers();
        ids
    }

    /// Shuts down once: the first call sets the shutdown flag, wakes the running
    /// workers (which are sent a shutdown message) and returns them; later calls
    /// return nothing.
    pub fn shutdown(&mut self) -> (r: Option<Vec<usize>>)
        requires
            old(self).wf(),
        ensures
            final(self).wf(),
            final(self).shutdown,
            old(self).shutdown ==> r is None && final(self).waker_states() == old(self).waker_states(),
            !old(self).shutdown ==> (r matches Some(ids) && ids@ == active_workers(old(self).worker_actives@))
                && final(self).waker_states() == woken(old(self).waker_states(), old(self).worker_actives@),
            final(self).worker_actives@ == old(self).worker_actives@,
    {
        if self.shutdown {
            return None;
        }
        self.shutdown = true;
        let ids = self.active_worker_ids();
        self.wake_active_workers();
        Some(ids)
    }
}

/// Reserving a task and releasing it again leaves the task count as it was.
pub proof fn lemma_reserve_then_release_keeps_count(total_tasks: u64)
    ensures
        total_tasks.wrapping_add(1).wrapping_sub(1) == total_tasks,
{
}

} // verus!
