use vstd::prelude::*;

verus! {

/// A component driven by the tick service.
pub trait TickHandler {
    /// The tick period this handler wants.
    fn tick_duration(&self) -> std::time::Duration;

    /// Called on each tick with the handler's tick count and the current time.
    fn on_tick(&self, tick_count: u64, now_ns: u64);

    /// Called when the tick service shuts down.
    fn on_shutdown(&self);
}

/// Timing statistics of a tick loop.
#[derive(Debug, Clone, Copy)]
pub struct TickStats {
    pub avg_tick_loop_duration_ns: u64,
    pub avg_tick_loop_sleep_ns: u64,
    pub max_drift_ns: u64,
    pub total_ticks: u64,
    pub total_drift_ns: i64,
    pub missed_ticks: u64,
    pub last_tick_ns: u64,
}

/// A copy of tick statistics at one point in time.
#[derive(Clone, Copy, Debug, Default)]
pub struct TickStatsSnapshot {
    pub avg_tick_loop_duration_ns: u64,
    pub avg_tick_loop_sleep_ns: u64,
    pub max_drift_ns: i64,
    pub total_ticks: u64,
    pub total_drift_ns: i64,
    pub missed_ticks: u64,
    pub last_tick_ns: u64,
}

impl TickStats {
    /// The current statistics; the maximum drift is reinterpreted as signed.
    pub fn snapshot(&self) -> (s: TickStatsSnapshot)
        ensures
            s.avg_tick_loop_duration_ns == self.avg_tick_loop_duration_ns,
            s.avg_tick_loop_sleep_ns == self.avg_tick_loop_sleep_ns,
            s.max_drift_ns == self.max_drift_ns as i64,
            s.total_ticks == self.total_ticks,
            s.total_drift_ns == self.total_drift_ns,
            s.missed_ticks == self.missed_ticks,
            s.last_tick_ns == self.last_tick_ns,
    {
        TickStatsSnapshot {
            avg_tick_loop_duration_ns: self.avg_tick_loop_duration_ns,
            avg_tick_loop_sleep_ns: self.avg_tick_loop_sleep_ns,
            max_drift_ns: self.max_drift_ns as i64,
            total_ticks: self.total_ticks,
            total_drift_ns: self.total_drift_ns,
            missed_ticks: self.missed_ticks,
            last_tick_ns: self.last_tick_ns,
        }
    }
}

impl TickStats {
    /// All counters at zero.
    pub open spec fn zeroed() -> TickStats {
        TickStats {
            avg_tick_loop_duration_ns: 0,
            avg_tick_loop_sleep_ns: 0,
            max_drift_ns: 0,
            total_ticks: 0,
            total_drift_ns: 0,
            missed_ticks: 0,
            last_tick_ns: 0,
        }
    }
}

impl Default for TickStats {
    fn default() -> (s: Self)
        ensures
            s == TickStats::zeroed(),
    {
        TickStats {
            avg_tick_loop_duration_ns: 0,
            avg_tick_loop_sleep_ns: 0,
            max_drift_ns: 0,
            total_ticks: 0,
            total_drift_ns: 0,
            missed_ticks: 0,
            last_tick_ns: 0,
        }
    }
}

/// A nanosecond count narrowed to `u64`, saturating.
pub open spec fn sat_u64(d: u128) -> u64 {
    if d > u64::MAX as u128 {
        u64::MAX
    } else {
        d as u64
    }
}

/// Narrows a nanosecond count to `u64`, saturating.
pub fn saturate_ns(d: u128) -> (r: u64)
    ensures
        r == sat_u64(d),
{
    if d > u64::MAX as u128 {
        u64::MAX
    } else {
        d as u64
    }
}

/// The smallest tick duration among the live handlers (`None` marks a handler that
/// is gone), each narrowed to `u64`; `None` when no handler is live.
pub open spec fn live_min(durs: Seq<Option<u128>>) -> Option<u64>
    decreases durs.len(),
{
    if durs.len() == 0 {
        None
    } else {
        let m = live_min(durs.drop_last());
        match durs.last() {
            None => m,
            Some(d) => Some(
                match m {
                    None => sat_u64(d),
                    Some(x) => if sat_u64(d) < x {
                        sat_u64(d)
                    } else {
                        x
                    },
                },
            ),
        }
    }
}

/// The base tick: the smallest of the default duration and every live handler's
/// duration.
pub open spec fn base_duration(durs: Seq<Option<u128>>, default_ns: u128) -> u64 {
    match live_min(durs) {
        Some(m) => if m < sat_u64(default_ns) {
            m
        } else {
            sat_u64(default_ns)
        },
        None => sat_u64(default_ns),
    }
}

/// How many base ticks pass between two calls of a handler with period `h`: one
/// when `h` is at most the base, else `h / base` rounded up.
pub open spec fn interval_for(h: u64, base: u64) -> u64 {
    if h <= base {
        1
    } else {
        ((h + base - 1) / (base as int)) as u64
    }
}

/// The rounding of `interval_for` stays within `u64` (its sum is formed first) and
/// divides by a nonzero base.
pub open spec fn interval_ok(h: u64, base: u64) -> bool {
    h <= base || (base > 0 && h + base <= u64::MAX)
}

/// Every live handler's interval can be computed against the base tick.
pub open spec fn recalc_ok(durs: Seq<Option<u128>>, default_ns: u128) -> bool {
    forall|i: int|
        0 <= i < durs.len() && #[trigger] durs[i] is Some ==> interval_ok(
            sat_u64(durs[i]->0),
            base_duration(durs, default_ns),
        )
}

/// The handlers with the interval of every live one computed against `base`.
pub open spec fn recalced(hs: Seq<TickHandlerState>, durs: Seq<Option<u128>>, base: u64) -> Seq<TickHandlerState> {
    Seq::new(
        hs.len(),
        |i: int|
            match durs[i] {
                Some(d) => TickHandlerState { tick_interval: interval_for(sat_u64(d), base), ..hs[i] },
                None => hs[i],
            },
    )
}

/// The position of the last handler with id `id`, or -1.
pub open spec fn id_index(hs: Seq<TickHandlerState>, id: u64) -> int
    decreases hs.len(),
{
    if hs.len() == 0 {
        -1
    } else if hs.last().handler_id == id {
        hs.len() - 1
    } else {
        id_index(hs.drop_last(), id)
    }
}

/// A new handler's bookkeeping: its interval against the current base tick, no
/// call yet, zeroed statistics.
pub open spec fn new_handler(id: u64, d: u128, base: u64) -> TickHandlerState {
    TickHandlerState {
        handler_id: id,
        tick_interval: interval_for(sat_u64(d), base),
        handler_tick_count: 0,
        stats: TickStats::zeroed(),
    }
}

/// The handlers after adding `st`: it replaces a handler with its id, if any,
/// else it comes last.
pub open spec fn inserted(hs: Seq<TickHandlerState>, st: TickHandlerState) -> Seq<TickHandlerState> {
    let k = id_index(hs, st.handler_id);
    if k >= 0 {
        hs.update(k, st)
    } else {
        hs.push(st)
    }
}

/// The handler periods after adding a handler with id `id` and period `d`,
/// placed as `inserted` places it.
pub open spec fn inserted_durations(hs: Seq<TickHandlerState>, durs: Seq<Option<u128>>, id: u64, d: u128) -> Seq<
    Option<u128>,
> {
    let k = id_index(hs, id);
    if k >= 0 {
        durs.update(k, Some(d))
    } else {
        durs.push(Some(d))
    }
}

/// The position of a handler id is a valid index holding that id, or -1 when no
/// handler has it.
pub proof fn lemma_id_index_bounds(hs: Seq<TickHandlerState>, id: u64)
    ensures
        -1 <= id_index(hs, id) < hs.len(),
        id_index(hs, id) >= 0 ==> hs[id_index(hs, id)].handler_id == id,
        id_index(hs, id) < 0 ==> forall|k: int| 0 <= k < hs.len() ==> (#[trigger] hs[k]).handler_id != id,
    decreases hs.len(),
{
    if hs.len() > 0 && hs.last().handler_id != id {
        lemma_id_index_bounds(hs.drop_last(), id);
        assert forall|k: int| 0 <= k < hs.len() - 1 implies #[trigger] hs[k] == hs.drop_last()[k] by {}
    }
}

/// A live handler's bookkeeping after a tick: its last tick time is `now_ns`, and
/// either its call is counted (the tick is a multiple of its interval) or a missed
/// tick is.
pub open spec fn visited(st: TickHandlerState, tick_count: u64, now_ns: u64) -> TickHandlerState {
    let stats = TickStats { last_tick_ns: now_ns, ..st.stats };
    if tick_count % st.tick_interval == 0 {
        TickHandlerState {
            handler_tick_count: vstd::wrapping::u64_specs::wrapping_add(st.handler_tick_count, 1),
            stats,
            ..st
        }
    } else {
        TickHandlerState {
            stats: TickStats {
                missed_ticks: vstd::wrapping::u64_specs::wrapping_add(st.stats.missed_ticks, 1),
                ..stats
            },
            ..st
        }
    }
}

/// Every handler after a tick: the live ones visited, the others untouched.
pub open spec fn after_visit(hs: Seq<TickHandlerState>, durs: Seq<Option<u128>>, tick_count: u64, now_ns: u64) -> Seq<
    TickHandlerState,
> {
    Seq::new(
        hs.len(),
        |i: int|
            if durs[i] is Some {
                visited(hs[i], tick_count, now_ns)
            } else {
                hs[i]
            },
    )
}

/// The calls a tick makes, in order: (id, the handler's own tick count) of each
/// live handler whose interval divides the tick.
pub open spec fn due_calls(hs: Seq<TickHandlerState>, durs: Seq<Option<u128>>, tick_count: u64) -> Seq<(u64, u64)>
    decreases hs.len(),
{
    if hs.len() == 0 {
        seq![]
    } else {
        let rest = due_calls(hs.drop_last(), durs.drop_last(), tick_count);
        let st = hs.last();
        if durs[hs.len() - 1] is Some && tick_count % st.tick_interval == 0 {
            rest.push((st.handler_id, st.handler_tick_count))
        } else {
            rest
        }
    }
}

/// The live handlers, in order.
pub open spec fn keep_live(hs: Seq<TickHandlerState>, durs: Seq<Option<u128>>) -> Seq<TickHandlerState>
    decreases hs.len(),
{
    if hs.len() == 0 {
        seq![]
    } else {
        let rest = keep_live(hs.drop_last(), durs.drop_last());
        if durs[hs.len() - 1] is Some {
            rest.push(hs.last())
        } else {
            rest
        }
    }
}

/// The periods of the live handlers, in order.
pub open spec fn live_durations(durs: Seq<Option<u128>>) -> Seq<Option<u128>>
    decreases durs.len(),
{
    if durs.len() == 0 {
        seq![]
    } else {
        let rest = live_durations(durs.drop_last());
        if durs.last() is Some {
            rest.push(durs.last())
        } else {
            rest
        }
    }
}

/// Every handler is live.
pub open spec fn all_live(durs: Seq<Option<u128>>) -> bool {
    forall|i: int| 0 <= i < durs.len() ==> #[trigger] durs[i] is Some
}

proof fn lemma_keep_live(hs: Seq<TickHandlerState>, durs: Seq<Option<u128>>)
    requires
        hs.len() == durs.len(),
        forall|i: int| 0 <= i < hs.len() ==> (#[trigger] hs[i]).tick_interval >= 1,
    ensures
        keep_live(hs, durs).len() == live_durations(durs).len(),
        forall|k: int| 0 <= k < keep_live(hs, durs).len() ==> (#[trigger] keep_live(hs, durs)[k]).tick_interval >= 1,
    decreases hs.len(),
{
    if hs.len() > 0 {
        lemma_keep_live(hs.drop_last(), durs.drop_last());
        assert(durs.drop_last().len() == durs.len() - 1);
        assert(durs[hs.len() - 1] == durs.last());
    }
}

/// Division truncating toward zero, for a positive divisor.
pub open spec fn trunc_div(a: int, b: int) -> int {
    if a >= 0 {
        a / b
    } else {
        -((-a) / b)
    }
}

/// The running average after one more sample, as the tick loop keeps it: the first
/// sample itself, else the previous average moved by the difference over the new
/// sample count, in signed 64-bit arithmetic with truncating division.
pub open spec fn avg_update(prev_avg: u64, sample: u64, prev_total: u64) -> u64 {
    if prev_total == 0 {
        sample
    } else {
        ((prev_avg as i64) + trunc_div((sample as i64) - (prev_avg as i64), prev_total + 1)) as i64 as u64
    }
}

/// The average update stays within signed 64-bit arithmetic; the sample count is
/// below 2^63.
pub open spec fn avg_update_ok(prev_avg: u64, sample: u64, prev_total: u64) -> bool {
    prev_total == 0 || ({
        let d = (sample as i64) - (prev_avg as i64);
        &&& prev_total + 1 <= i64::MAX
        &&& i64::MIN <= d <= i64::MAX
        &&& i64::MIN <= (prev_avg as i64) + trunc_div(d, prev_total + 1) <= i64::MAX
    })
}

/// Whether the running average can take one more sample within range.
pub fn avg_update_computable(prev_avg: u64, sample: u64, prev_total: u64) -> (r: bool)
    ensures
        r == avg_update_ok(prev_avg, sample, prev_total),
{
    if prev_total == 0 {
        return true;
    }
    if prev_total >= 0x7fff_ffff_ffff_ffffu64 {
        return false;
    }
    let prev = prev_avg as i64;
    let s = sample as i64;
    match s.checked_sub(prev) {
        None => false,
        Some(d) => {
            let q = d / ((prev_total + 1) as i64);
            prev.checked_add(q).is_some()
        },
    }
}

/// The running average after one more sample (see `avg_update`).
pub fn running_avg(prev_avg: u64, sample: u64, prev_total: u64) -> (r: u64)
    requires
        avg_update_ok(prev_avg, sample, prev_total),
    ensures
        r == avg_update(prev_avg, sample, prev_total),
{
    if prev_total == 0 {
        return sample;
    }
    let new_total = prev_total + 1;
    let prev = prev_avg as i64;
    let avg = prev + ((sample as i64 - prev) / new_total as i64);
    avg as u64
}

/// The magnitude of a signed drift.
pub open spec fn abs_u64(d: i64) -> u64 {
    if d < 0 {
        (-(d as int)) as u64
    } else {
        d as u64
    }
}

/// The magnitude of a signed drift.
pub fn unsigned_abs(d: i64) -> (r: u64)
    ensures
        r == abs_u64(d),
{
    if d < 0 {
        if d == i64::MIN {
            0x8000_0000_0000_0000
        } else {
            (-d) as u64
        }
    } else {
        d as u64
    }
}

/// A drift of `drift_ns` nanoseconds as a signed count: positive when the loop is
/// behind its schedule, negative when ahead, clamped to the `i64` range.
pub fn clamp_drift(behind: bool, drift_ns: u128) -> (r: i64)
    ensures
        behind ==> r == (if drift_ns > i64::MAX as u128 {
            i64::MAX as int
        } else {
            drift_ns as int
        }),
        !behind ==> r == (if drift_ns > i64::MAX as u128 {
            i64::MIN as int
        } else {
            -(drift_ns as int)
        }),
{
    if behind {
        if drift_ns > i64::MAX as u128 {
            i64::MAX
        } else {
            drift_ns as i64
        }
    } else {
        if drift_ns > i64::MAX as u128 {
            i64::MIN
        } else {
            -(drift_ns as i64)
        }
    }
}

/// A handler's statistics after one of its calls took `sample` nanoseconds: one
/// more call, and the running average of call durations updated.
pub open spec fn apply_run(hs: Seq<TickHandlerState>, run: (u64, u64)) -> Seq<TickHandlerState> {
    let k = id_index(hs, run.0);
    if k < 0 {
        hs
    } else {
        let st = hs[k];
        hs.update(
            k,
            TickHandlerState {
                stats: TickStats {
                    total_ticks: vstd::wrapping::u64_specs::wrapping_add(st.stats.total_ticks, 1),
                    avg_tick_loop_duration_ns: avg_update(
                        st.stats.avg_tick_loop_duration_ns,
                        run.1,
                        st.stats.total_ticks,
                    ),
                    ..st.stats
                },
                ..st
            },
        )
    }
}

/// The update of `apply_run` is within range.
pub open spec fn run_ok(hs: Seq<TickHandlerState>, run: (u64, u64)) -> bool {
    let k = id_index(hs, run.0);
    k < 0 || avg_update_ok(hs[k].stats.avg_tick_loop_duration_ns, run.1, hs[k].stats.total_ticks)
}

/// The handlers after the runs `runs` (id, duration), in order.
pub open spec fn apply_runs(hs: Seq<TickHandlerState>, runs: Seq<(u64, u64)>) -> Seq<TickHandlerState>
    decreases runs.len(),
{
    if runs.len() == 0 {
        hs
    } else {
        apply_run(apply_runs(hs, runs.drop_last()), runs.last())
    }
}

/// Every update of `apply_runs` is within range.
pub open spec fn runs_ok(hs: Seq<TickHandlerState>, runs: Seq<(u64, u64)>) -> bool
    decreases runs.len(),
{
    runs.len() == 0 || (runs_ok(hs, runs.drop_last()) && run_ok(apply_runs(hs, runs.drop_last()), runs.last()))
}

proof fn lemma_runs_ok_prefix(hs: Seq<TickHandlerState>, runs: Seq<(u64, u64)>, i: int)
    requires
        runs_ok(hs, runs),
        0 <= i <= runs.len(),
    ensures
        runs_ok(hs, runs.take(i)),
    decreases runs.len() - i,
{
    if i < runs.len() {
        lemma_runs_ok_prefix(hs, runs, i + 1);
        assert(runs.take(i + 1).drop_last() =~= runs.take(i));
    } else {
        assert(runs.take(i) =~= runs);
    }
}

proof fn lemma_apply_runs_shape(hs: Seq<TickHandlerState>, runs: Seq<(u64, u64)>)
    requires
        forall|i: int| 0 <= i < hs.len() ==> (#[trigger] hs[i]).tick_interval >= 1,
    ensures
        apply_runs(hs, runs).len() == hs.len(),
        forall|i: int| 0 <= i < hs.len() ==> (#[trigger] apply_runs(hs, runs)[i]).tick_interval >= 1,
    decreases runs.len(),
{
    if runs.len() > 0 {
        lemma_apply_runs_shape(hs, runs.drop_last());
        lemma_id_index_bounds(apply_runs(hs, runs.drop_last()), runs.last().0);
    }
}

/// Bookkeeping of one registered handler.
#[derive(Debug, Clone, Copy)]
pub struct TickHandlerState {
    pub handler_id: u64,
    pub tick_interval: u64,
    pub handler_tick_count: u64,
    pub stats: TickStats,
}

/// The decisions of the tick service: the registered handlers and their intervals,
/// the base tick, the loop's statistics and its flags. Handler objects, the tick
/// thread and the clock live with the caller, which reports for each handler
/// (in registration order) its tick period in nanoseconds, or `None` when the
/// handler is gone.
pub struct TickService {
    default_tick_duration_ns: u128,
    tick_duration_ns: u64,
    handlers: Vec<TickHandlerState>,
    shutdown: bool,
    started: bool,
    tick_stats: TickStats,
    next_handler_id: u64,
    shutdown_timeout_ns: u64,
    error_count: u64,
    log_handler_panics: bool,
}

/// The abstract state of the tick service.
pub struct TickServiceState {
    pub default_tick_duration_ns: u128,
    pub tick_duration_ns: u64,
    pub handlers: Seq<TickHandlerState>,
    pub shutdown: bool,
    pub started: bool,
    pub tick_stats: TickStats,
    pub next_handler_id: u64,
    pub shutdown_timeout_ns: u64,
    pub error_count: u64,
    pub log_handler_panics: bool,
}

/// The service once its tick loop is marked started.
pub open spec fn started_state(s: TickServiceState) -> TickServiceState {
    TickServiceState { started: true, ..s }
}

/// The service once shutdown is requested.
pub open spec fn shut_down_state(s: TickServiceState) -> TickServiceState {
    TickServiceState { shutdown: true, ..s }
}

impl TickServiceState {
    /// Every handler is called every so many ticks, at least one.
    pub open spec fn wf(&self) -> bool {
        forall|i: int| 0 <= i < self.handlers.len() ==> (#[trigger] self.handlers[i]).tick_interval >= 1
    }
}

impl View for TickService {
    type V = TickServiceState;

    closed spec fn view(&self) -> TickServiceState {
        TickServiceState {
            default_tick_duration_ns: self.default_tick_duration_ns,
            tick_duration_ns: self.tick_duration_ns,
            handlers: self.handlers@,
            shutdown: self.shutdown,
            started: self.started,
            tick_stats: self.tick_stats,
            next_handler_id: self.next_handler_id,
            shutdown_timeout_ns: self.shutdown_timeout_ns,
            error_count: self.error_count,
            log_handler_panics: self.log_handler_panics,
        }
    }
}

proof fn lemma_interval_positive(h: u64, base: u64)
    requires
        interval_ok(h, base),
    ensures
        interval_for(h, base) >= 1,
{
    if h > base {
        assert((h + base - 1) / (base as int) >= 1) by (nonlinear_arith)
            requires
                h > base,
                base > 0,
        ;
    }
}

/// The base tick that the periods `durations` and the default `default_ns` give:
/// the smallest of the default and the live periods.
pub fn base_tick_for(durations: &Vec<Option<u128>>, default_ns: u128) -> (r: u64)
    ensures
        r == base_duration(durations@, default_ns),
{
    let ghost durs = durations@;
    let default_sat = saturate_ns(default_ns);
    let mut min: Option<u64> = None;
    let mut i: usize = 0;
    while i < durations.len()
        invariant
            durs == durations@,
            i <= durs.len(),
            min == live_min(durs.take(i as int)),
        decreases durs.len() - i,
    {
        proof {
            assert(durs.take(i as int + 1).drop_last() =~= durs.take(i as int));
        }
        match durations[i] {
            Some(d) => {
                let h = saturate_ns(d);
                min = Some(
                    match min {
                        None => h,
                        Some(m) => if h < m {
                            h
                        } else {
                            m
                        },
                    },
                );
            },
            None => {},
        }
        i = i + 1;
    }
    proof {
        assert(durs.take(i as int) =~= durs);
    }
    match min {
        Some(m) => if m < default_sat {
            m
        } else {
            default_sat
        },
        None => default_sat,
    }
}

/// Whether the interval of a handler with period `h` can be computed against the
/// base tick `base`.
pub fn interval_computable(h: u64, base: u64) -> (r: bool)
    ensures
        r == interval_ok(h, base),
{
    h <= base || (base > 0 && h <= u64::MAX - base)
}

/// Whether the interval of every live handler among `durations` can be computed
/// against the base tick that they and the default `default_ns` give.
pub fn intervals_computable(durations: &Vec<Option<u128>>, default_ns: u128) -> (r: bool)
    ensures
        r == recalc_ok(durations@, default_ns),
{
    let base = base_tick_for(durations, default_ns);
    let mut i: usize = 0;
    while i < durations.len()
        invariant
            i <= durations@.len(),
            base == base_duration(durations@, default_ns),
            forall|k: int|
                0 <= k < i && #[trigger] durations@[k] is Some ==> interval_ok(sat_u64(durations@[k]->0), base),
        decreases durations@.len() - i,
    {
        match durations[i] {
            Some(d) => {
                if !interval_computable(saturate_ns(d), base) {
                    return false;
                }
            },
            None => {},
        }
        i = i + 1;
    }
    true
}

impl TickService {
    /// The service's consistency.
    pub open spec fn wf(&self) -> bool {
        self@.wf()
    }

    /// A stopped service with no handler whose base tick is `tick_duration_ns`
    /// (narrowed to `u64`, saturating); handlers' shutdown time limit 100 ms.
    pub fn new(tick_duration_ns: u128) -> (t: Self)
        ensures
            t.wf(),
            t@.default_tick_duration_ns == tick_duration_ns,
            t@.tick_duration_ns == sat_u64(tick_duration_ns),
            t@.handlers.len() == 0,
            !t@.shutdown && !t@.started,
            t@.tick_stats == TickStats::zeroed(),
            t@.next_handler_id == 1,
            t@.shutdown_timeout_ns == 100_000_000,
            t@.error_count == 0,
            !t@.log_handler_panics,
    {
        TickService {
            default_tick_duration_ns: tick_duration_ns,
            tick_duration_ns: saturate_ns(tick_duration_ns),
            handlers: Vec::new(),
            shutdown: false,
            started: false,
            tick_stats: TickStats::default(),
            next_handler_id: 1,
            shutdown_timeout_ns: 100_000_000,
            error_count: 0,
            log_handler_panics: false,
        }
    }

    /// Sets the base tick to the smallest of the default and the live handler
    /// periods and recomputes every live handler's interval against it.
    pub fn recalculate_tick_duration(&mut self, durations: &Vec<Option<u128>>)
        requires
            old(self).wf(),
            durations@.len() == old(self)@.handlers.len(),
            recalc_ok(durations@, old(self)@.default_tick_duration_ns),
        ensures
            final(self).wf(),
            final(self)@ == (TickServiceState {
                tick_duration_ns: base_duration(durations@, old(self)@.default_tick_duration_ns),
                handlers: recalced(
                    old(self)@.handlers,
                    durations@,
                    base_duration(durations@, old(self)@.default_tick_duration_ns),
                ),
                ..old(self)@
            }),
    {
        let ghost o = self@;
        let ghost durs = durations@;
        let base = base_tick_for(durations, self.default_tick_duration_ns);
        self.tick_duration_ns = base;
        let ghost target = recalced(o.handlers, durs, base as u64);
        let mut j: usize = 0;
        while j < self.handlers.len()
            invariant
                durs == durations@,
                durs.len() == o.handlers.len(),
                self.handlers@.len() == o.handlers.len(),
                base == base_duration(durs, o.default_tick_duration_ns),
                recalc_ok(durs, o.default_tick_duration_ns),
                target == recalced(o.handlers, durs, base as u64),
                j <= o.handlers.len(),
                forall|k: int| 0 <= k < j ==> #[trigger] self.handlers@[k] == target[k],
                forall|k: int| j <= k < o.handlers.len() ==> #[trigger] self.handlers@[k] == o.handlers[k],
                self.default_tick_duration_ns == o.default_tick_duration_ns,
                self.tick_duration_ns == base,
                self.shutdown == o.shutdown,
                self.started == o.started,
                self.tick_stats == o.tick_stats,
                self.next_handler_id == o.next_handler_id,
                self.shutdown_timeout_ns == o.shutdown_timeout_ns,
                self.error_count == o.error_count,
                self.log_handler_panics == o.log_handler_panics,
            decreases o.handlers.len() - j,
        {
            match durations[j] {
                Some(d) => {
                    let h = saturate_ns(d);
                    proof {
                        assert(durs[j as int] is Some);
                        assert(durs[j as int]->0 == d);
                        assert(interval_ok(h, base));
                    }
                    let interval = if h <= base {
                        1
                    } else {
                        (h + base - 1) / base
                    };
                    let mut st = self.handlers[j];
                    st.tick_interval = interval;
                    self.handlers.set(j, st);
                },
                None => {},
            }
            j = j + 1;
        }
        proof {
            assert(self.handlers@ =~= target);
            assert forall|k: int| 0 <= k < self@.handlers.len() implies (#[trigger] self@.handlers[k]).tick_interval >= 1 by {
                if durs[k] is Some {
                    lemma_interval_positive(sat_u64(durs[k]->0), base);
                } else {
                    assert(o.handlers[k].tick_interval >= 1);
                }
            }
        }
    }

    /// The position of the last handler with id `id`.
    fn find_handler(&self, id: u64) -> (r: Option<usize>)
        ensures
            r matches Some(k) ==> k as int == id_index(self@.handlers, id),
            r is None ==> id_index(self@.handlers, id) < 0,
    {
        let ghost hs = self@.handlers;
        proof {
            assert(hs.take(hs.len() as int) =~= hs);
        }
        let mut i: usize = self.handlers.len();
        while i > 0
            invariant
                hs == self@.handlers,
                i <= hs.len(),
                id_index(hs, id) == id_index(hs.take(i as int), id),
            decreases i,
        {
            proof {
                assert(hs.take(i as int).drop_last() =~= hs.take(i - 1));
            }
            i = i - 1;
            if self.handlers[i].handler_id == id {
                return Some(i);
            }
        }
        None
    }

    /// Registers a handler with period `handler_duration_ns`, given the periods of
    /// the registered handlers: it gets the next id and its interval against the
    /// current base tick, replaces a handler with that id if there is one, and the
    /// base tick and intervals are then recomputed. Returns the new id.
    pub fn register(&mut self, handler_duration_ns: u128, durations: Vec<Option<u128>>) -> (r: Option<u64>)
        requires
            old(self).wf(),
            durations@.len() == old(self)@.handlers.len(),
            interval_ok(sat_u64(handler_duration_ns), old(self)@.tick_duration_ns),
            recalc_ok(
                inserted_durations(old(self)@.handlers, durations@, old(self)@.next_handler_id, handler_duration_ns),
                old(self)@.default_tick_duration_ns,
            ),
        ensures
            final(self).wf(),
            ({
                let o = old(self)@;
                let st = new_handler(o.next_handler_id, handler_duration_ns, o.tick_duration_ns);
                let hs = inserted(o.handlers, st);
                let ds = inserted_durations(o.handlers, durations@, o.next_handler_id, handler_duration_ns);
                let b = base_duration(ds, o.default_tick_duration_ns);
                &&& r == Some(o.next_handler_id)
                &&& final(self)@ == (TickServiceState {
                    tick_duration_ns: b,
                    handlers: recalced(hs, ds, b),
                    next_handler_id: vstd::wrapping::u64_specs::wrapping_add(o.next_handler_id, 1),
                    ..o
                })
            }),
    {
        let ghost o = self@;
        let h = saturate_ns(handler_duration_ns);
        let current_base_ns = self.tick_duration_ns;
        let tick_interval = if h <= current_base_ns {
            1
        } else {
            (h + current_base_ns - 1) / current_base_ns
        };
        proof {
            lemma_interval_positive(h, current_base_ns);
        }
        let handler_id = self.next_handler_id;
        self.next_handler_id = self.next_handler_id.wrapping_add(1);
        let st = TickHandlerState { handler_id, tick_interval, handler_tick_count: 0, stats: TickStats::default() };
        let ghost d0 = durations@;
        let mut durations = durations;
        proof {
            lemma_id_index_bounds(o.handlers, handler_id);
        }
        match self.find_handler(handler_id) {
            Some(k) => {
                self.handlers.set(k, st);
                durations.set(k, Some(handler_duration_ns));
                proof {
                    assert(id_index(o.handlers, handler_id) == k);
                    assert(self@.handlers =~= inserted(o.handlers, st));
                    assert(durations@ =~= inserted_durations(o.handlers, d0, handler_id, handler_duration_ns));
                }
            },
            None => {
                self.handlers.push(st);
                durations.push(Some(handler_duration_ns));
                proof {
                    assert(id_index(o.handlers, handler_id) < 0);
                    assert(self@.handlers =~= inserted(o.handlers, st));
                    assert(durations@ =~= inserted_durations(o.handlers, d0, handler_id, handler_duration_ns));
                }
            },
        }
        self.recalculate_tick_duration(&durations);
        Some(handler_id)
    }

    /// Removes the handler with id `handler_id`, given the periods of the registered
    /// handlers, and recomputes the base tick and intervals; whether there was one.
    pub fn unregister(&mut self, handler_id: u64, durations: Vec<Option<u128>>) -> (r: bool)
        requires
            old(self).wf(),
            durations@.len() == old(self)@.handlers.len(),
            id_index(old(self)@.handlers, handler_id) >= 0 ==> recalc_ok(
                durations@.remove(id_index(old(self)@.handlers, handler_id)),
                old(self)@.default_tick_duration_ns,
            ),
        ensures
            final(self).wf(),
            ({
                let o = old(self)@;
                let k = id_index(o.handlers, handler_id);
                if k < 0 {
                    !r && final(self)@ == o
                } else {
                    let ds = durations@.remove(k);
                    let b = base_duration(ds, o.default_tick_duration_ns);
                    &&& r
                    &&& final(self)@ == (TickServiceState {
                        tick_duration_ns: b,
                        handlers: recalced(o.handlers.remove(k), ds, b),
                        ..o
                    })
                }
            }),
    {
        let ghost o = self@;
        proof {
            lemma_id_index_bounds(o.handlers, handler_id);
        }
        match self.find_handler(handler_id) {
            Some(k) => {
                let mut durations = durations;
                self.handlers.remove(k);
                durations.remove(k);
                proof {
                    assert(self@.handlers =~= o.handlers.remove(k as int));
                    assert forall|i: int| 0 <= i < self@.handlers.len() implies (#[trigger] self@.handlers[i]).tick_interval
                        >= 1 by {
                        if i < k {
                            assert(self@.handlers[i] == o.handlers[i]);
                        } else {
                            assert(self@.handlers[i] == o.handlers[i + 1]);
                        }
                    }
                }
                self.recalculate_tick_duration(&durations);
                true
            },
            None => false,
        }
    }

    /// One tick of the loop over the handlers, given their periods (`None` for a
    /// handler that is gone): each live handler has its last tick time set and is
    /// called when the tick is a multiple of its interval (its own tick count goes
    /// up), else a missed tick is counted; handlers that are gone are dropped, and
    /// then the base tick and intervals are recomputed. Returns the calls to make,
    /// (id, the handler's tick count), in registration order.
    pub fn tick_handlers(&mut self, tick_count: u64, now_ns: u64, durations: Vec<Option<u128>>) -> (r: Vec<(u64, u64)>)
        requires
            old(self).wf(),
            durations@.len() == old(self)@.handlers.len(),
            !all_live(durations@) ==> recalc_ok(live_durations(durations@), old(self)@.default_tick_duration_ns),
        ensures
            final(self).wf(),
            ({
                let o = old(self)@;
                let durs = durations@;
                let v = after_visit(o.handlers, durs, tick_count, now_ns);
                let ld = live_durations(durs);
                let b = base_duration(ld, o.default_tick_duration_ns);
                &&& r@ == due_calls(o.handlers, durs, tick_count)
                &&& all_live(durs) ==> final(self)@ == (TickServiceState { handlers: v, ..o })
                &&& !all_live(durs) ==> final(self)@ == (TickServiceState {
                    handlers: recalced(keep_live(v, durs), ld, b),
                    tick_duration_ns: b,
                    ..o
                })
            }),
    {
        let ghost o = self@;
        let ghost durs = durations@;
        let ghost v = after_visit(o.handlers, durs, tick_count, now_ns);
        let mut calls: Vec<(u64, u64)> = Vec::new();
        let mut any_dead = false;
        let mut i: usize = 0;
        while i < self.handlers.len()
            invariant
                durs == durations@,
                durs.len() == o.handlers.len(),
                v == after_visit(o.handlers, durs, tick_count, now_ns),
                o.wf(),
                self.handlers@.len() == o.handlers.len(),
                i <= o.handlers.len(),
                calls@ == due_calls(o.handlers.take(i as int), durs.take(i as int), tick_count),
                any_dead == !all_live(durs.take(i as int)),
                forall|k: int| 0 <= k < i ==> #[trigger] self.handlers@[k] == v[k],
                forall|k: int| i <= k < o.handlers.len() ==> #[trigger] self.handlers@[k] == o.handlers[k],
                self@ == (TickServiceState { handlers: self.handlers@, ..o }),
            decreases o.handlers.len() - i,
        {
            proof {
                assert(o.handlers.take(i as int + 1).drop_last() =~= o.handlers.take(i as int));
                assert(durs.take(i as int + 1).drop_last() =~= durs.take(i as int));
                assert(o.handlers[i as int].tick_interval >= 1);
            }
            match durations[i] {
                None => {
                    any_dead = true;
                    proof {
                        assert(durs.take(i as int + 1)[i as int] is None);
                    }
                },
                Some(_) => {
                    let mut st = self.handlers[i];
                    st.stats.last_tick_ns = now_ns;
                    if tick_count % st.tick_interval == 0 {
                        calls.push((st.handler_id, st.handler_tick_count));
                        st.handler_tick_count = st.handler_tick_count.wrapping_add(1);
                    } else {
                        st.stats.missed_ticks = st.stats.missed_ticks.wrapping_add(1);
                    }
                    self.handlers.set(i, st);
                    proof {
                        assert(all_live(durs.take(i as int + 1)) == all_live(durs.take(i as int))) by {
                            if all_live(durs.take(i as int)) {
                                assert forall|k: int| 0 <= k < i + 1 implies #[trigger] durs.take(i as int + 1)[k] is Some by {
                                    if k < i {
                                        assert(durs.take(i as int)[k] is Some);
                                    }
                                }
                            } else {
                                let k = choose|k: int| 0 <= k < i && !(#[trigger] durs.take(i as int)[k] is Some);
                                assert(durs.take(i as int + 1)[k] is None);
                            }
                        }
                    }
                },
            }
            i = i + 1;
        }
        proof {
            assert(o.handlers.take(i as int) =~= o.handlers);
            assert(durs.take(i as int) =~= durs);
            assert(self.handlers@ =~= v);
        }
        if any_dead {
            let mut kept: Vec<TickHandlerState> = Vec::new();
            let mut live: Vec<Option<u128>> = Vec::new();
            let mut j: usize = 0;
            while j < self.handlers.len()
                invariant
                    durs == durations@,
                    durs.len() == v.len(),
                    self.handlers@ == v,
                    j <= v.len(),
                    kept@ == keep_live(v.take(j as int), durs.take(j as int)),
                    live@ == live_durations(durs.take(j as int)),
                decreases v.len() - j,
            {
                proof {
                    assert(v.take(j as int + 1).drop_last() =~= v.take(j as int));
                    assert(durs.take(j as int + 1).drop_last() =~= durs.take(j as int));
                }
                if durations[j].is_some() {
                    kept.push(self.handlers[j]);
                    live.push(durations[j]);
                }
                j = j + 1;
            }
            proof {
                assert(v.take(j as int) =~= v);
                assert(durs.take(j as int) =~= durs);
                assert forall|k: int| 0 <= k < v.len() implies (#[trigger] v[k]).tick_interval >= 1 by {
                    assert(o.handlers[k].tick_interval >= 1);
                }
                lemma_keep_live(v, durs);
            }
            self.handlers = kept;
            self.recalculate_tick_duration(&live);
        }
        calls
    }

    /// Records how long each call of the last tick took, `runs` holding (id,
    /// duration): the handler with that id, if still registered, counts one more
    /// call and updates its running average of call durations.
    pub fn record_handler_runs(&mut self, runs: &Vec<(u64, u64)>)
        requires
            old(self).wf(),
            runs_ok(old(self)@.handlers, runs@),
        ensures
            final(self).wf(),
            final(self)@ == (TickServiceState { handlers: apply_runs(old(self)@.handlers, runs@), ..old(self)@ }),
    {
        let ghost o = self@;
        let mut i: usize = 0;
        while i < runs.len()
            invariant
                o.wf(),
                runs_ok(o.handlers, runs@),
                i <= runs@.len(),
                self@ == (TickServiceState { handlers: apply_runs(o.handlers, runs@.take(i as int)), ..o }),
            decreases runs@.len() - i,
        {
            proof {
                lemma_runs_ok_prefix(o.handlers, runs@, i + 1);
                assert(runs@.take(i as int + 1).drop_last() =~= runs@.take(i as int));
                assert(runs@.take(i as int + 1).last() == runs@[i as int]);
                lemma_id_index_bounds(self@.handlers, runs@[i as int].0);
                assert(run_ok(self@.handlers, runs@[i as int]));
            }
            let (id, duration_ns) = runs[i];
            match self.find_handler(id) {
                Some(k) => {
                    let st = self.handlers[k];
                    let prev_total = st.stats.total_ticks;
                    let avg = running_avg(st.stats.avg_tick_loop_duration_ns, duration_ns, prev_total);
                    let stats = TickStats {
                        total_ticks: prev_total.wrapping_add(1),
                        avg_tick_loop_duration_ns: avg,
                        ..st.stats
                    };
                    self.handlers.set(k, TickHandlerState { stats, ..st });
                },
                None => {},
            }
            proof {
                assert(self@.handlers =~= apply_runs(o.handlers, runs@.take(i as int + 1)));
            }
            i = i + 1;
        }
        proof {
            assert(runs@.take(i as int) =~= runs@);
            lemma_apply_runs_shape(o.handlers, runs@);
        }
    }

    /// Records one pass of the tick loop: one more tick, the running averages of
    /// the loop's processing and sleep times, the largest drift magnitude and the
    /// total drift (wrapping).
    pub fn record_loop(&mut self, loop_duration_ns: u64, actual_sleep_ns: u64, drift_ns: i64)
        requires
            avg_update_ok(
                old(self)@.tick_stats.avg_tick_loop_duration_ns,
                loop_duration_ns,
                old(self)@.tick_stats.total_ticks,
            ),
            avg_update_ok(old(self)@.tick_stats.avg_tick_loop_sleep_ns, actual_sleep_ns, old(self)@.tick_stats.total_ticks),
        ensures
            ({
                let t = old(self)@.tick_stats;
                final(self)@ == (TickServiceState {
                    tick_stats: TickStats {
                        total_ticks: vstd::wrapping::u64_specs::wrapping_add(t.total_ticks, 1),
                        avg_tick_loop_duration_ns: avg_update(t.avg_tick_loop_duration_ns, loop_duration_ns, t.total_ticks),
                        avg_tick_loop_sleep_ns: avg_update(t.avg_tick_loop_sleep_ns, actual_sleep_ns, t.total_ticks),
                        max_drift_ns: if abs_u64(drift_ns) > t.max_drift_ns {
                            abs_u64(drift_ns)
                        } else {
                            t.max_drift_ns
                        },
                        total_drift_ns: vstd::wrapping::i64_specs::wrapping_add(t.total_drift_ns, drift_ns),
                        ..t
                    },
                    ..old(self)@
                })
            }),
    {
        let prev_total = self.tick_stats.total_ticks;
        self.tick_stats.total_ticks = prev_total.wrapping_add(1);
        self.tick_stats.avg_tick_loop_duration_ns = running_avg(
            self.tick_stats.avg_tick_loop_duration_ns,
            loop_duration_ns,
            prev_total,
        );
        self.tick_stats.avg_tick_loop_sleep_ns = running_avg(self.tick_stats.avg_tick_loop_sleep_ns, actual_sleep_ns, prev_total);
        let drift_abs = unsigned_abs(drift_ns);
        if drift_abs > self.tick_stats.max_drift_ns {
            self.tick_stats.max_drift_ns = drift_abs;
        }
        self.tick_stats.total_drift_ns = self.tick_stats.total_drift_ns.wrapping_add(drift_ns);
    }

    /// The loop's statistics.
    pub fn tick_stats(&self) -> (s: TickStatsSnapshot)
        ensures
            s.avg_tick_loop_duration_ns == self@.tick_stats.avg_tick_loop_duration_ns,
            s.avg_tick_loop_sleep_ns == self@.tick_stats.avg_tick_loop_sleep_ns,
            s.max_drift_ns == self@.tick_stats.max_drift_ns as i64,
            s.total_ticks == self@.tick_stats.total_ticks,
            s.total_drift_ns == self@.tick_stats.total_drift_ns,
            s.missed_ticks == self@.tick_stats.missed_ticks,
            s.last_tick_ns == self@.tick_stats.last_tick_ns,
    {
        self.tick_stats.snapshot()
    }

    /// The id that the next registered handler gets.
    pub fn next_handler_id(&self) -> (r: u64)
        ensures
            r == self@.next_handler_id,
    {
        self.next_handler_id
    }

    /// The default base tick in nanoseconds, as given at creation.
    pub fn default_tick_duration_ns(&self) -> (r: u128)
        ensures
            r == self@.default_tick_duration_ns,
    {
        self.default_tick_duration_ns
    }

    /// The base tick in nanoseconds.
    pub fn current_tick_duration_ns(&self) -> (r: u64)
        ensures
            r == self@.tick_duration_ns,
    {
        self.tick_duration_ns
    }

    /// Sets how long handlers may take to shut down (narrowed to `u64`, saturating).
    pub fn set_shutdown_timeout(&mut self, timeout_ns: u128)
        ensures
            final(self)@ == (TickServiceState { shutdown_timeout_ns: sat_u64(timeout_ns), ..old(self)@ }),
    {
        self.shutdown_timeout_ns = saturate_ns(timeout_ns);
    }

    /// How long handlers may take to shut down, in nanoseconds.
    pub fn shutdown_timeout_ns(&self) -> (r: u64)
        ensures
            r == self@.shutdown_timeout_ns,
    {
        self.shutdown_timeout_ns
    }

    /// The number of handler failures counted, with the loop's statistics.
    pub fn error_stats(&self) -> (r: (u64, TickStatsSnapshot))
        ensures
            r.0 == self@.error_count,
            r.1.total_ticks == self@.tick_stats.total_ticks,
            r.1.avg_tick_loop_duration_ns == self@.tick_stats.avg_tick_loop_duration_ns,
            r.1.avg_tick_loop_sleep_ns == self@.tick_stats.avg_tick_loop_sleep_ns,
            r.1.max_drift_ns == self@.tick_stats.max_drift_ns as i64,
            r.1.total_drift_ns == self@.tick_stats.total_drift_ns,
            r.1.missed_ticks == self@.tick_stats.missed_ticks,
            r.1.last_tick_ns == self@.tick_stats.last_tick_ns,
    {
        (self.error_count, self.tick_stats.snapshot())
    }

    /// Turns the logging of handler failures on or off.
    pub fn set_panic_logging(&mut self, enabled: bool)
        ensures
            final(self)@ == (TickServiceState { log_handler_panics: enabled, ..old(self)@ }),
    {
        self.log_handler_panics = enabled;
    }

    /// Whether handler failures are logged.
    pub fn is_panic_logging_enabled(&self) -> (r: bool)
        ensures
            r == self@.log_handler_panics,
    {
        self.log_handler_panics
    }

    /// Whether shutdown was requested.
    pub fn is_shutdown(&self) -> (r: bool)
        ensures
            r == self@.shutdown,
    {
        self.shutdown
    }

    /// The number of registered handlers.
    pub fn handler_count(&self) -> (r: usize)
        ensures
            r == self@.handlers.len(),
    {
        self.handlers.len()
    }

    /// The registered handlers' ids, in registration order.
    pub fn handler_ids(&self) -> (r: Vec<u64>)
        ensures
            r@.len() == self@.handlers.len(),
            forall|i: int| 0 <= i < r@.len() ==> #[trigger] r@[i] == self@.handlers[i].handler_id,
    {
        let mut ids: Vec<u64> = Vec::new();
        let mut i: usize = 0;
        while i < self.handlers.len()
            invariant
                i <= self.handlers@.len(),
                ids@.len() == i,
                forall|k: int| 0 <= k < i ==> #[trigger] ids@[k] == self.handlers@[k].handler_id,
            decreases self.handlers@.len() - i,
        {
            ids.push(self.handlers[i].handler_id);
            i = i + 1;
        }
        ids
    }

    /// Each handler's statistics, in registration order.
    pub fn handler_stats(&self) -> (r: Vec<TickStatsSnapshot>)
        ensures
            r@.len() == self@.handlers.len(),
            forall|i: int|
                0 <= i < r@.len() ==> (#[trigger] r@[i]).total_ticks == self@.handlers[i].stats.total_ticks
                    && r@[i].missed_ticks == self@.handlers[i].stats.missed_ticks && r@[i].last_tick_ns
                    == self@.handlers[i].stats.last_tick_ns && r@[i].avg_tick_loop_duration_ns
                    == self@.handlers[i].stats.avg_tick_loop_duration_ns,
    {
        let mut out: Vec<TickStatsSnapshot> = Vec::new();
        let mut i: usize = 0;
        while i < self.handlers.len()
            invariant
                i <= self.handlers@.len(),
                out@.len() == i,
                forall|k: int|
                    0 <= k < i ==> (#[trigger] out@[k]).total_ticks == self.handlers@[k].stats.total_ticks
                        && out@[k].missed_ticks == self.handlers@[k].stats.missed_ticks && out@[k].last_tick_ns
                        == self.handlers@[k].stats.last_tick_ns && out@[k].avg_tick_loop_duration_ns
                        == self.handlers@[k].stats.avg_tick_loop_duration_ns,
            decreases self.handlers@.len() - i,
        {
            out.push(self.handlers[i].stats.snapshot());
            i = i + 1;
        }
        out
    }

    /// Marks the tick loop started; whether it has to be started now (it was not
    /// before).
    pub fn start(&mut self) -> (r: bool)
        ensures
            r == !old(self)@.started,
            final(self)@ == started_state(old(self)@),
    {
        if self.started {
            return false;
        }
        self.started = true;
        true
    }

    /// Requests shutdown; whether this call requested it (it had not been before),
    /// in which case the tick loop is to be joined.
    pub fn shutdown(&mut self) -> (r: bool)
        ensures
            r == !old(self)@.shutdown,
            final(self)@ == shut_down_state(old(self)@),
    {
        if self.shutdown {
            return false;
        }
        self.shutdown = true;
        true
    }

    /// Counts a handler failure when failures are logged; whether it is to be logged.
    pub fn note_handler_panic(&mut self) -> (r: bool)
        ensures
            r == old(self)@.log_handler_panics,
            final(self)@ == (TickServiceState {
                error_count: if r {
                    vstd::wrapping::u64_specs::wrapping_add(old(self)@.error_count, 1)
                } else {
                    old(self)@.error_count
                },
                ..old(self)@
            }),
    {
        if self.log_handler_panics {
            self.error_count = self.error_count.wrapping_add(1);
            true
        } else {
            false
        }
    }
}

/// The base tick is the minimum of the default and every live handler's period: it
/// is no longer than the default nor than any live handler's period, and it is the
/// default or the period of some live handler.
pub proof fn lemma_base_is_smallest_live_period(durs: Seq<Option<u128>>, default_ns: u128)
    ensures
        base_duration(durs, default_ns) <= sat_u64(default_ns),
        forall|i: int|
            0 <= i < durs.len() && #[trigger] durs[i] is Some ==> base_duration(durs, default_ns) <= sat_u64(
                durs[i]->0,
            ),
        base_duration(durs, default_ns) == sat_u64(default_ns) || exists|i: int|
            0 <= i < durs.len() && #[trigger] durs[i] is Some && base_duration(durs, default_ns) == sat_u64(
                durs[i]->0,
            ),
        (forall|i: int| 0 <= i < durs.len() ==> #[trigger] durs[i] is None) ==> base_duration(durs, default_ns)
            == sat_u64(default_ns),
{
    lemma_live_min(durs);
}

proof fn lemma_live_min(durs: Seq<Option<u128>>)
    ensures
        live_min(durs) is None <==> forall|i: int| 0 <= i < durs.len() ==> #[trigger] durs[i] is None,
        live_min(durs) is Some ==> (forall|i: int|
            0 <= i < durs.len() && #[trigger] durs[i] is Some ==> live_min(durs)->0 <= sat_u64(durs[i]->0)) && (
        exists|i: int| 0 <= i < durs.len() && #[trigger] durs[i] is Some && live_min(durs)->0 == sat_u64(durs[i]->0)),
    decreases durs.len(),
{
    if durs.len() > 0 {
        let rest = durs.drop_last();
        lemma_live_min(rest);
        assert forall|i: int| 0 <= i < rest.len() implies #[trigger] rest[i] == durs[i] by {}
        let last = durs.len() - 1;
        assert(durs[last] == durs.last());
        let m = live_min(durs);
        match durs.last() {
            None => {
                assert(m == live_min(rest));
                if m is None {
                    assert forall|i: int| 0 <= i < durs.len() implies #[trigger] durs[i] is None by {
                        if i < last {
                            assert(rest[i] is None);
                        }
                    }
                } else {
                    let j = choose|j: int| 0 <= j < rest.len() && #[trigger] rest[j] is Some && live_min(rest)->0 == sat_u64(rest[j]->0);
                    assert(durs[j] is Some);
                    assert forall|i: int| 0 <= i < durs.len() && #[trigger] durs[i] is Some implies m->0 <= sat_u64(durs[i]->0) by {
                        assert(i < last);
                        assert(rest[i] is Some);
                    }
                }
            },
            Some(d) => {
                assert(m is Some);
                assert(durs[last] is Some);
                if live_min(rest) is None {
                    assert(m->0 == sat_u64(d));
                    assert forall|i: int| 0 <= i < durs.len() && #[trigger] durs[i] is Some implies m->0 <= sat_u64(durs[i]->0) by {
                        if i < last {
                            assert(rest[i] is None);
                        }
                    }
                } else {
                    let x = live_min(rest)->0;
                    let j = choose|j: int| 0 <= j < rest.len() && #[trigger] rest[j] is Some && x == sat_u64(rest[j]->0);
                    assert(durs[j] is Some);
                    assert forall|i: int| 0 <= i < durs.len() && #[trigger] durs[i] is Some implies m->0 <= sat_u64(durs[i]->0) by {
                        if i < last {
                            assert(rest[i] is Some);
                        }
                    }
                    if sat_u64(d) < x {
                        assert(m->0 == sat_u64(durs[last]->0));
                    } else {
                        assert(m->0 == sat_u64(durs[j]->0));
                    }
                }
            },
        }
    }
}

/// A handler is called every `interval_for(h, base)` base ticks: the first multiple
/// of the base tick that reaches its period `h`.
pub proof fn lemma_interval_rounds_up(h: u64, base: u64)
    requires
        base > 0,
        interval_ok(h, base),
    ensures
        interval_for(h, base) >= 1,
        h <= interval_for(h, base) * base || h <= base,
        (interval_for(h, base) - 1) * base < h || interval_for(h, base) == 1,
{
    if h > base {
        let n = (h + base - 1) / (base as int);
        assert(n * base <= h + base - 1 && h + base - 1 < (n + 1) * base) by (nonlinear_arith)
            requires
                base > 0,
                n == (h + base - 1) / (base as int),
        ;
        assert(n >= 1) by (nonlinear_arith)
            requires
                base > 0,
                h > base,
                n == (h + base - 1) / (base as int),
        ;
        assert(n <= u64::MAX) by (nonlinear_arith)
            requires
                base > 0,
                h + base <= u64::MAX,
                n == (h + base - 1) / (base as int),
        ;
        assert(interval_for(h, base) == n);
        assert(h <= n * base) by (nonlinear_arith)
            requires
                h + base - 1 < (n + 1) * base,
        ;
        assert((n - 1) * base < h) by (nonlinear_arith)
            requires
                n * base <= h + base - 1,
        ;
    }
}

/// Registering a handler with a fresh id and then unregistering it gives back the
/// base tick the other handlers' periods give, and leaves the other handlers as they
/// were but for their intervals, which are recomputed against that base tick.
pub proof fn lemma_register_then_unregister(
    hs: Seq<TickHandlerState>,
    durs: Seq<Option<u128>>,
    id: u64,
    d: u128,
    current_base: u64,
    default_ns: u128,
)
    requires
        durs.len() == hs.len(),
        id_index(hs, id) < 0,
    ensures
        ({
            let ds1 = inserted_durations(hs, durs, id, d);
            let b1 = base_duration(ds1, default_ns);
            let hs1 = recalced(inserted(hs, new_handler(id, d, current_base)), ds1, b1);
            let k = id_index(hs1, id);
            &&& k == hs.len()
            &&& ds1.remove(k) == durs
            &&& base_duration(ds1.remove(k), default_ns) == base_duration(durs, default_ns)
            &&& recalced(hs1.remove(k), ds1.remove(k), base_duration(durs, default_ns)) == recalced(
                hs,
                durs,
                base_duration(durs, default_ns),
            )
        }),
{
    let ds1 = inserted_durations(hs, durs, id, d);
    let b1 = base_duration(ds1, default_ns);
    let st = new_handler(id, d, current_base);
    let hs1 = recalced(inserted(hs, st), ds1, b1);
    assert(hs1.len() == hs.len() + 1);
    assert(hs1.drop_last() =~= hs1.take(hs.len() as int));
    assert(hs1.last().handler_id == id);
    assert(ds1.remove(hs.len() as int) =~= durs);
    let b = base_duration(durs, default_ns);
    assert(recalced(hs1.remove(hs.len() as int), durs, b) =~= recalced(hs, durs, b));
}

/// A live handler whose interval divides the tick is called with its own tick
/// count, which then goes up by one; one whose interval does not is not called and
/// counts a missed tick.
pub proof fn lemma_due_handler_is_called(hs: Seq<TickHandlerState>, durs: Seq<Option<u128>>, tick_count: u64, now_ns: u64, i: int)
    requires
        durs.len() == hs.len(),
        0 <= i < hs.len(),
        durs[i] is Some,
        hs[i].tick_interval >= 1,
    ensures
        tick_count % hs[i].tick_interval == 0 ==> due_calls(hs, durs, tick_count).contains(
            (hs[i].handler_id, hs[i].handler_tick_count),
        ) && after_visit(hs, durs, tick_count, now_ns)[i].handler_tick_count == vstd::wrapping::u64_specs::wrapping_add(
            hs[i].handler_tick_count,
            1,
        ),
        tick_count % hs[i].tick_interval != 0 ==> after_visit(hs, durs, tick_count, now_ns)[i].stats.missed_ticks
            == vstd::wrapping::u64_specs::wrapping_add(hs[i].stats.missed_ticks, 1)
            && after_visit(hs, durs, tick_count, now_ns)[i].handler_tick_count == hs[i].handler_tick_count,
        after_visit(hs, durs, tick_count, now_ns)[i].stats.last_tick_ns == now_ns,
{
    if tick_count % hs[i].tick_interval == 0 {
        lemma_due_calls_contains(hs, durs, tick_count, i);
    }
}

proof fn lemma_due_calls_contains(hs: Seq<TickHandlerState>, durs: Seq<Option<u128>>, tick_count: u64, i: int)
    requires
        durs.len() == hs.len(),
        0 <= i < hs.len(),
        durs[i] is Some,
        hs[i].tick_interval >= 1,
        tick_count % hs[i].tick_interval == 0,
    ensures
        due_calls(hs, durs, tick_count).contains((hs[i].handler_id, hs[i].handler_tick_count)),
    decreases hs.len(),
{
    let last = hs.len() - 1;
    if i == last {
        assert(hs.last() == hs[i]);
        let rest = due_calls(hs.drop_last(), durs.drop_last(), tick_count);
        assert(due_calls(hs, durs, tick_count) == rest.push((hs[i].handler_id, hs[i].handler_tick_count)));
        assert(due_calls(hs, durs, tick_count)[rest.len() as int] == (hs[i].handler_id, hs[i].handler_tick_count));
    } else {
        assert(hs.drop_last()[i] == hs[i]);
        assert(durs.drop_last()[i] == durs[i]);
        lemma_due_calls_contains(hs.drop_last(), durs.drop_last(), tick_count, i);
        let rest = due_calls(hs.drop_last(), durs.drop_last(), tick_count);
        let k = choose|k: int| 0 <= k < rest.len() && rest[k] == (hs[i].handler_id, hs[i].handler_tick_count);
        if durs[last] is Some && tick_count % hs.last().tick_interval == 0 {
            assert(due_calls(hs, durs, tick_count)[k] == rest[k]);
        }
    }
}

/// The handlers after the ticks 0, 1, ..., n - 1 of the loop, each at time
/// `now_ns`, with the periods `durs` throughout.
pub open spec fn after_ticks(hs: Seq<TickHandlerState>, durs: Seq<Option<u128>>, n: nat, now_ns: u64) -> Seq<
    TickHandlerState,
>
    decreases n,
{
    if n == 0 {
        hs
    } else {
        after_visit(after_ticks(hs, durs, (n - 1) as nat, now_ns), durs, (n - 1) as u64, now_ns)
    }
}

/// Counting the multiples of `k` below `n` and below `n + 1`.
proof fn lemma_multiples_below(n: int, k: int)
    requires
        n >= 0,
        k >= 1,
    ensures
        (n + k) / k == (n + k - 1) / k + (if n % k == 0 {
            1int
        } else {
            0int
        }),
        n % k == 0 ==> (n + k - 1) / k == n / k,
        0 <= (n + k - 1) / k <= n,
{
    let q = n / k;
    let r = n % k;
    vstd::arithmetic::div_mod::lemma_fundamental_div_mod(n, k);
    assert(k * q == q * k) by (nonlinear_arith);
    assert((q + 1) * k == q * k + k) by (nonlinear_arith);
    assert(q >= 0) by (nonlinear_arith)
        requires
            n >= 0,
            k >= 1,
            q == n / k,
    ;
    assert(q * k >= q) by (nonlinear_arith)
        requires
            q >= 0,
            k >= 1,
    ;
    if r == 0 {
        vstd::arithmetic::div_mod::lemma_fundamental_div_mod_converse_div(n + k - 1, k, q, k - 1);
        vstd::arithmetic::div_mod::lemma_fundamental_div_mod_converse_div(n + k, k, q + 1, 0);
    } else {
        vstd::arithmetic::div_mod::lemma_fundamental_div_mod_converse_div(n + k - 1, k, q + 1, r - 1);
        vstd::arithmetic::div_mod::lemma_fundamental_div_mod_converse_div(n + k, k, q + 1, r);
    }
}

/// While every handler stays live with its period, a handler of interval `k` is
/// called on the ticks 0, k, 2k, ... and its calls carry its own tick counts one
/// after another: after the ticks 0..n its count has grown by the number of
/// multiples of `k` below `n`, and on a tick `n` that `k` divides it is called
/// with the count it started with plus `n / k` (as long as the count does not
/// wrap).
pub proof fn lemma_handler_called_every_interval(
    hs: Seq<TickHandlerState>,
    durs: Seq<Option<u128>>,
    n: nat,
    now_ns: u64,
    i: int,
)
    requires
        durs.len() == hs.len(),
        all_live(durs),
        0 <= i < hs.len(),
        hs[i].tick_interval >= 1,
        n <= u64::MAX,
        hs[i].handler_tick_count + n <= u64::MAX,
    ensures
        after_ticks(hs, durs, n, now_ns).len() == hs.len(),
        after_ticks(hs, durs, n, now_ns)[i].handler_id == hs[i].handler_id,
        after_ticks(hs, durs, n, now_ns)[i].tick_interval == hs[i].tick_interval,
        after_ticks(hs, durs, n, now_ns)[i].handler_tick_count == hs[i].handler_tick_count + (n + hs[i].tick_interval
            - 1) / (hs[i].tick_interval as int),
        (n as int) % (hs[i].tick_interval as int) == 0 ==> due_calls(after_ticks(hs, durs, n, now_ns), durs, n as u64).contains(
            (hs[i].handler_id, (hs[i].handler_tick_count + (n as int) / (hs[i].tick_interval as int)) as u64),
        ),
    decreases n,
{
    let k = hs[i].tick_interval as int;
    assert(durs[i] is Some);
    lemma_multiples_below(n as int, k);
    if n > 0 {
        let m = (n - 1) as nat;
        lemma_handler_called_every_interval(hs, durs, m, now_ns, i);
        lemma_multiples_below(m as int, k);
        let prev = after_ticks(hs, durs, m, now_ns);
        assert(after_ticks(hs, durs, n, now_ns) == after_visit(prev, durs, m as u64, now_ns));
    }
    let cur = after_ticks(hs, durs, n, now_ns);
    lemma_due_handler_is_called(cur, durs, n as u64, now_ns, i);
}

/// Starting and shutting down each happen once: a second `start` or `shutdown`
/// changes nothing (and reports `false`), and neither undoes the other.
pub proof fn lemma_start_and_shutdown_once(s: TickServiceState)
    ensures
        started_state(s).started,
        started_state(started_state(s)) == started_state(s),
        shut_down_state(s).shutdown,
        shut_down_state(shut_down_state(s)) == shut_down_state(s),
        shut_down_state(started_state(s)).started,
        started_state(shut_down_state(s)).shutdown,
{
}

/// After the base tick and intervals are recomputed from the periods `durs`, every
/// live handler's interval is its period over the base tick, rounded up (one when
/// the period is at most the base), and a handler that is gone keeps its interval.
pub proof fn lemma_recalced_intervals(hs: Seq<TickHandlerState>, durs: Seq<Option<u128>>, base: u64, i: int)
    requires
        hs.len() == durs.len(),
        0 <= i < hs.len(),
    ensures
        durs[i] is Some ==> recalced(hs, durs, base)[i].tick_interval == interval_for(sat_u64(durs[i]->0), base),
        durs[i] is None ==> recalced(hs, durs, base)[i] == hs[i],
        recalced(hs, durs, base)[i].handler_id == hs[i].handler_id,
{
}

} // verus!
