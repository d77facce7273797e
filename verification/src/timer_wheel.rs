use vstd::prelude::*;

use crate::wheel::{
    all_compacted, cancel_result, scan_count, scan_offset, cancelled, fresh_spoke, is_min_deadline,
    lemma_schedule_places_timer, is_pow2, item_from, schedule_id, scheduled,
    slot_capacities, wheel_room, CompactionConfig, SingleWheel, TimerWheelError, WheelMemoryStats, WheelState,
    NULL_DEADLINE,
};

verus! {

/// Default tick of the fast wheel (about 1 ms).
pub const L0_TICK_NS: u64 = 0x10_0000;

/// Default tick of the medium wheel (about 1 s).
pub const L1_TICK_NS: u64 = 0x4000_0000;

/// Default tick of the slow wheel (about 69 s).
pub const L2_TICK_NS: u64 = 0x10_0000_0000;

/// Default number of spokes per wheel.
pub const DEFAULT_SPOKES: usize = 1024;

/// The id of timer (spoke, slot, generation) of wheel `level`: level in bits 62-63,
/// generation in bits 40-61, spoke in bits 28-39, slot in bits 0-27.
pub open spec fn timer_id_of(level: u8, spoke: usize, slot: usize, generation: u32) -> u64 {
    ((level as u64) << 62u64) | (((generation as u64) & 0x3FFFFFu64) << 40u64) | (((spoke as u64)
        & 0xFFFu64) << 28u64) | ((slot as u64) & 0xFFFFFFFu64)
}

/// The (level, spoke, slot, generation) fields of a timer id.
pub open spec fn id_fields(timer_id: u64) -> (u8, usize, usize, u32) {
    (
        ((timer_id >> 62u64) & 0x3u64) as u8,
        ((timer_id >> 28u64) & 0xFFFu64) as usize,
        (timer_id & 0xFFFFFFFu64) as usize,
        ((timer_id >> 40u64) & 0x3FFFFFu64) as u32,
    )
}

/// Three-level hierarchical timing wheel without cascading: a timer stays in the
/// wheel it was scheduled into, and a wheel is polled when its tick advances.
pub struct TimerWheel<T> {
    l0: SingleWheel<T>,
    l1: SingleWheel<T>,
    l2: SingleWheel<T>,
    start_time_ns: u64,
    now_ns: u64,
    prev_l0_tick: u64,
    prev_l1_tick: u64,
    prev_l2_tick: u64,
    worker_id: u32,
    l0_coverage_ns: u64,
    l1_coverage_ns: u64,
    l2_coverage_ns: u64,
}

/// The abstract state of a hierarchical wheel.
pub struct TimerWheelState<T> {
    pub l0: WheelState<T>,
    pub l1: WheelState<T>,
    pub l2: WheelState<T>,
    pub start_time_ns: u64,
    pub now_ns: u64,
    pub prev_l0_tick: u64,
    pub prev_l1_tick: u64,
    pub prev_l2_tick: u64,
    pub worker_id: u32,
    pub l0_coverage_ns: u64,
    pub l1_coverage_ns: u64,
    pub l2_coverage_ns: u64,
}

impl<T> View for TimerWheel<T> {
    type V = TimerWheelState<T>;

    closed spec fn view(&self) -> TimerWheelState<T> {
        TimerWheelState {
            l0: self.l0@,
            l1: self.l1@,
            l2: self.l2@,
            start_time_ns: self.start_time_ns,
            now_ns: self.now_ns,
            prev_l0_tick: self.prev_l0_tick,
            prev_l1_tick: self.prev_l1_tick,
            prev_l2_tick: self.prev_l2_tick,
            worker_id: self.worker_id,
            l0_coverage_ns: self.l0_coverage_ns,
            l1_coverage_ns: self.l1_coverage_ns,
            l2_coverage_ns: self.l2_coverage_ns,
        }
    }
}

/// Whether polling from tick `t` stays in range for a wheel of `n` spokes.
pub open spec fn tick_fits(t: u64, n: usize) -> bool {
    t + n <= usize::MAX
}

/// The first fast-wheel tick a poll scans: the one before the last polled tick, so
/// that a timer scheduled slightly in the past (its spoke one tick behind) fires on
/// the next poll.
pub open spec fn l0_scan_start(prev_l0_tick: u64) -> u64 {
    if prev_l0_tick > 0 {
        (prev_l0_tick - 1) as u64
    } else {
        0
    }
}

/// See `l0_scan_start`.
fn l0_scan_from(prev_l0_tick: u64) -> (r: u64)
    ensures
        r == l0_scan_start(prev_l0_tick),
{
    if prev_l0_tick > 0 {
        prev_l0_tick - 1
    } else {
        0
    }
}

impl<T> TimerWheelState<T> {
    /// Total number of timers.
    pub open spec fn timer_count(&self) -> int {
        self.l0.timer_count + self.l1.timer_count + self.l2.timer_count
    }

    /// The wheel a level names.
    pub open spec fn level(&self, level: u8) -> WheelState<T> {
        if level == 0 {
            self.l0
        } else if level == 1 {
            self.l1
        } else {
            self.l2
        }
    }

    /// Whether every wheel has room for one more timer.
    pub open spec fn has_room(&self) -> bool {
        &&& wheel_room(self.l0.timer_count + 1, self.l0.config)
        &&& wheel_room(self.l1.timer_count + 1, self.l1.config)
        &&& wheel_room(self.l2.timer_count + 1, self.l2.config)
    }
}

/// The smallest present value of three options.
pub open spec fn min3(a: Option<u64>, b: Option<u64>, c: Option<u64>) -> Option<u64> {
    let ab = match (a, b) {
        (Some(x), Some(y)) => Some(if x <= y {
            x
        } else {
            y
        }),
        (Some(x), None) => Some(x),
        (None, y) => y,
    };
    match (ab, c) {
        (Some(x), Some(y)) => Some(if x <= y {
            x
        } else {
            y
        }),
        (Some(x), None) => Some(x),
        (None, y) => y,
    }
}

/// `r` and `after` are what `SingleWheel::next_deadline` gives on `before`.
/// What scheduling a timer at exactly `deadline_ns` does: a zero deadline, one
/// before the start or more than a fast tick in the past is refused; otherwise the
/// timer goes to the first level whose coverage holds it, and a deadline beyond
/// the slow level's coverage is refused.
pub open spec fn timer_scheduled<T>(o: TimerWheelState<T>, deadline_ns: u64, data: T, r: Result<u64, TimerWheelError>, f: TimerWheelState<T>) -> bool {
    let rel = (deadline_ns - o.start_time_ns) as u64;
    let floor = if o.now_ns > o.l0.tick_resolution_ns {
        o.now_ns - o.l0.tick_resolution_ns
    } else {
        0
    };
    if deadline_ns == 0 || deadline_ns < o.start_time_ns || deadline_ns < floor {
        r == Err::<u64, TimerWheelError>(TimerWheelError::InvalidDeadline) && f == o
    } else if rel < o.l0_coverage_ns {
        let t = schedule_id(o.l0, deadline_ns);
        &&& r == Ok::<u64, TimerWheelError>(timer_id_of(0, t.0, t.1, t.2))
        &&& f == TimerWheelState { l0: scheduled(o.l0, deadline_ns, data), ..o }
    } else if rel < o.l1_coverage_ns {
        let t = schedule_id(o.l1, deadline_ns);
        &&& r == Ok::<u64, TimerWheelError>(timer_id_of(1, t.0, t.1, t.2))
        &&& f == TimerWheelState { l1: scheduled(o.l1, deadline_ns, data), ..o }
    } else if rel < o.l2_coverage_ns {
        let t = schedule_id(o.l2, deadline_ns);
        &&& r == Ok::<u64, TimerWheelError>(timer_id_of(2, t.0, t.1, t.2))
        &&& f == TimerWheelState { l2: scheduled(o.l2, deadline_ns, data), ..o }
    } else {
        r == Err::<u64, TimerWheelError>(TimerWheelError::DeadlineTooFar) && f == o
    }
}

/// What best-fit scheduling toward `target_deadline_ns` does: a zero target or one
/// before the start is refused; a target already reached fires on the next tick of
/// the fast level; otherwise the timer goes to the first level whose coverage holds
/// the remaining time, and beyond the slow level's coverage it is placed at the far
/// end of the slow level (to be scheduled again from there). The result holds the
/// timer's id and the deadline used.
pub open spec fn timer_scheduled_best_fit<T>(o: TimerWheelState<T>, target_deadline_ns: u64, data: T, r: Result<(u64, u64), TimerWheelError>, f: TimerWheelState<T>) -> bool {
        let now = o.now_ns;
    let rem = target_deadline_ns - now;
    if target_deadline_ns == 0 || target_deadline_ns < o.start_time_ns {
        r == Err::<(u64, u64), TimerWheelError>(TimerWheelError::InvalidDeadline) && f == o
    } else if target_deadline_ns <= now {
        let d = (now + 1) as u64;
        let t = schedule_id(o.l0, d);
        &&& r == Ok::<(u64, u64), TimerWheelError>((timer_id_of(0, t.0, t.1, t.2), d))
        &&& f == TimerWheelState { l0: scheduled(o.l0, d, data), ..o }
    } else if rem <= o.l0_coverage_ns {
        let t = schedule_id(o.l0, target_deadline_ns);
        &&& r == Ok::<(u64, u64), TimerWheelError>((timer_id_of(0, t.0, t.1, t.2), target_deadline_ns))
        &&& f == TimerWheelState { l0: scheduled(o.l0, target_deadline_ns, data), ..o }
    } else if rem <= o.l1_coverage_ns {
        let t = schedule_id(o.l1, target_deadline_ns);
        &&& r == Ok::<(u64, u64), TimerWheelError>((timer_id_of(1, t.0, t.1, t.2), target_deadline_ns))
        &&& f == TimerWheelState { l1: scheduled(o.l1, target_deadline_ns, data), ..o }
    } else if rem <= o.l2_coverage_ns {
        let t = schedule_id(o.l2, target_deadline_ns);
        &&& r == Ok::<(u64, u64), TimerWheelError>((timer_id_of(2, t.0, t.1, t.2), target_deadline_ns))
        &&& f == TimerWheelState { l2: scheduled(o.l2, target_deadline_ns, data), ..o }
    } else {
        let d = (now + o.l2_coverage_ns - o.l2.tick_resolution_ns) as u64;
        let t = schedule_id(o.l2, d);
        &&& r == Ok::<(u64, u64), TimerWheelError>((timer_id_of(2, t.0, t.1, t.2), d))
        &&& f == TimerWheelState { l2: scheduled(o.l2, d, data), ..o }
    }
}

/// The wheel after cancelling the timer `timer_id` names: its level loses it (see
/// `cancelled`); an id naming no level changes nothing.
/// Whether no spoke of `before` that a poll from tick `prev` to tick `cur` scanned
/// holds a timer due at `now_ns` in `after`.
pub open spec fn level_swept<T>(before: WheelState<T>, prev: u64, cur: u64, now_ns: u64, after: WheelState<T>) -> bool {
    forall|i: int|
        0 <= i < before.num_spokes && scan_offset(i, prev as int, before.num_spokes as int) < scan_count(
            prev,
            cur,
            before.num_spokes,
        ) ==> !#[trigger] after.has_due(i, now_ns)
}

/// A level after every spoke with a free slot is compacted.
pub open spec fn level_compacted<T>(w: WheelState<T>) -> WheelState<T> {
    WheelState { spokes: all_compacted(w.spokes, w.config), ..w }
}

pub open spec fn cancelled_state<T>(o: TimerWheelState<T>, timer_id: u64) -> TimerWheelState<T> {
    let f = id_fields(timer_id);
    if f.0 > 2 {
        o
    } else if f.0 == 0 {
        TimerWheelState { l0: cancelled(o.l0, f.1, f.2, f.3), ..o }
    } else if f.0 == 1 {
        TimerWheelState { l1: cancelled(o.l1, f.1, f.2, f.3), ..o }
    } else {
        TimerWheelState { l2: cancelled(o.l2, f.1, f.2, f.3), ..o }
    }
}

/// What looking up the earliest deadline does: each level answers (from its cache,
/// or by a scan that refreshes the cache), the answer is the smallest of the three,
/// and only the levels' caches change.
pub open spec fn next_deadline_found<T>(o: TimerWheelState<T>, r: Option<u64>, f: TimerWheelState<T>) -> bool {
    &&& exists|d0: Option<u64>, d1: Option<u64>, d2: Option<u64>|
        next_deadline_step(o.l0, d0, f.l0) && next_deadline_step(o.l1, d1, f.l1) && next_deadline_step(o.l2, d2, f.l2)
            && r == min3(d0, d1, d2)
    &&& f == (TimerWheelState { l0: f.l0, l1: f.l1, l2: f.l2, ..o })
}

pub open spec fn next_deadline_step<T>(before: WheelState<T>, r: Option<u64>, after: WheelState<T>) -> bool {
    if before.timer_count == 0 {
        r is None && after == before
    } else if before.cached_next_deadline != NULL_DEADLINE {
        r == Some(before.cached_next_deadline) && after == before
    } else {
        &&& is_min_deadline(before.spokes, after.cached_next_deadline)
        &&& after == WheelState { cached_next_deadline: after.cached_next_deadline, ..before }
        &&& r == if after.cached_next_deadline != NULL_DEADLINE {
            Some(after.cached_next_deadline)
        } else {
            None
        }
    }
}

impl<T> TimerWheel<T> {
    /// The hierarchy's consistency.
    pub closed spec fn wf(&self) -> bool {
        &&& self.l0.wf()
        &&& self.l1.wf()
        &&& self.l2.wf()
        &&& self.l0_coverage_ns == self.l0@.tick_resolution_ns * self.l0@.num_spokes
        &&& self.l1_coverage_ns == self.l1@.tick_resolution_ns * self.l1@.num_spokes
        &&& self.l2_coverage_ns == self.l2@.tick_resolution_ns * self.l2@.num_spokes
        &&& self.l0@.start_time_ns == self.start_time_ns
        &&& self.l1@.start_time_ns == self.start_time_ns
        &&& self.l2@.start_time_ns == self.start_time_ns
        &&& tick_fits(self.prev_l0_tick, self.l0@.num_spokes)
        &&& tick_fits(self.prev_l1_tick, self.l1@.num_spokes)
        &&& tick_fits(self.prev_l2_tick, self.l2@.num_spokes)
    }

    /// The wheels of a consistent hierarchy are consistent.
    pub proof fn lemma_wf_levels(&self)
        requires
            self.wf(),
        ensures
            self@.l0.wf(),
            self@.l1.wf(),
            self@.l2.wf(),
            self@.l0.start_time_ns == self@.start_time_ns,
            self@.l1.start_time_ns == self@.start_time_ns,
            self@.l2.start_time_ns == self@.start_time_ns,
    {
        self.l0.lemma_wf_view();
        self.l1.lemma_wf_view();
        self.l2.lemma_wf_view();
    }

    /// A hierarchy with the default ticks (2^20, 2^30 and 2^36 ns) and 1024 spokes per
    /// wheel.
    pub fn new(worker_id: u32) -> (w: Self)
        ensures
            w.wf(),
            w@.worker_id == worker_id,
            w@.l0.tick_resolution_ns == L0_TICK_NS,
            w@.l1.tick_resolution_ns == L1_TICK_NS,
            w@.l2.tick_resolution_ns == L2_TICK_NS,
            w@.l0.num_spokes == DEFAULT_SPOKES,
            w@.l1.num_spokes == DEFAULT_SPOKES,
            w@.l2.num_spokes == DEFAULT_SPOKES,
            w@.l0_coverage_ns == 0x4000_0000,
            w@.l1_coverage_ns == 0x100_0000_0000,
            w@.l2_coverage_ns == 0x4000_0000_0000,
            w@.l0.config == (CompactionConfig {
                min_capacity_for_compaction: 64,
                compaction_ratio: 4,
                target_capacity_multiplier: 2,
            }),
            w@.l1.config == (CompactionConfig {
                min_capacity_for_compaction: 64,
                compaction_ratio: 4,
                target_capacity_multiplier: 2,
            }),
            w@.l2.config == (CompactionConfig {
                min_capacity_for_compaction: 64,
                compaction_ratio: 4,
                target_capacity_multiplier: 2,
            }),
            forall|i: int| 0 <= i < DEFAULT_SPOKES ==> #[trigger] w@.l0.spokes[i] == fresh_spoke::<T>(16),
            forall|i: int| 0 <= i < DEFAULT_SPOKES ==> #[trigger] w@.l1.spokes[i] == fresh_spoke::<T>(16),
            forall|i: int| 0 <= i < DEFAULT_SPOKES ==> #[trigger] w@.l2.spokes[i] == fresh_spoke::<T>(16),
            w@.l0.current_tick == 0 && w@.l1.current_tick == 0 && w@.l2.current_tick == 0,
            w@.l0.cached_next_deadline == NULL_DEADLINE && w@.l1.cached_next_deadline == NULL_DEADLINE
                && w@.l2.cached_next_deadline == NULL_DEADLINE,
            w@.timer_count() == 0,
            w@.start_time_ns == 0,
            w@.now_ns == 0,
            w@.prev_l0_tick == 0 && w@.prev_l1_tick == 0 && w@.prev_l2_tick == 0,
    {
        proof {
            vstd::arithmetic::power2::lemma2_to64();
            assert(vstd::arithmetic::power2::pow2(20) == L0_TICK_NS);
            assert(vstd::arithmetic::power2::pow2(30) == L1_TICK_NS);
            vstd::arithmetic::power2::lemma_pow2_adds(32, 4);
            assert(vstd::arithmetic::power2::pow2(36) == L2_TICK_NS);
            assert(vstd::arithmetic::power2::pow2(10) == DEFAULT_SPOKES);
        }
        Self::with_config(L0_TICK_NS, L1_TICK_NS, L2_TICK_NS, DEFAULT_SPOKES, worker_id)
    }

    /// A hierarchy whose levels tick at `tick_resolution_ns`, `ticks_per_wheel` times
    /// that, and `ticks_per_wheel` times that again, with `ticks_per_wheel` spokes
    /// each (the resolution is given in nanoseconds).
    pub fn from_duration(tick_resolution_ns: u64, ticks_per_wheel: usize, worker_id: u32) -> (w: Self)
        requires
            is_pow2(tick_resolution_ns as int),
            is_pow2(ticks_per_wheel as int),
            tick_resolution_ns * ticks_per_wheel * ticks_per_wheel * ticks_per_wheel <= u64::MAX,
        ensures
            w.wf(),
            w@.worker_id == worker_id,
            w@.l0.tick_resolution_ns == tick_resolution_ns,
            w@.l1.tick_resolution_ns == tick_resolution_ns * ticks_per_wheel,
            w@.l2.tick_resolution_ns == tick_resolution_ns * ticks_per_wheel * ticks_per_wheel,
            w@.l0.num_spokes == ticks_per_wheel,
            w@.l1.num_spokes == ticks_per_wheel,
            w@.l2.num_spokes == ticks_per_wheel,
            w@.timer_count() == 0,
            w@.start_time_ns == 0,
            w@.now_ns == 0,
    {
        let t = ticks_per_wheel as u64;
        proof {
            lemma_pow2_mul(tick_resolution_ns as int, ticks_per_wheel as int);
            lemma_pow2_mul(tick_resolution_ns * ticks_per_wheel, ticks_per_wheel as int);
            lemma_pow2_positive(ticks_per_wheel as int);
            lemma_mul_chain_bounds(tick_resolution_ns as int, ticks_per_wheel as int);
        }
        let l0_tick_ns = tick_resolution_ns;
        let l1_tick_ns = l0_tick_ns * t;
        let l2_tick_ns = l1_tick_ns * t;
        Self::with_config(l0_tick_ns, l1_tick_ns, l2_tick_ns, ticks_per_wheel, worker_id)
    }

    /// A hierarchy with the given tick resolutions (powers of two) and number of spokes
    /// per wheel (a power of two).
    pub fn with_config(
        l0_tick_ns: u64,
        l1_tick_ns: u64,
        l2_tick_ns: u64,
        spokes_per_wheel: usize,
        worker_id: u32,
    ) -> (w: Self)
        requires
            is_pow2(l0_tick_ns as int),
            is_pow2(l1_tick_ns as int),
            is_pow2(l2_tick_ns as int),
            is_pow2(spokes_per_wheel as int),
            l0_tick_ns * spokes_per_wheel <= u64::MAX,
            l1_tick_ns * spokes_per_wheel <= u64::MAX,
            l2_tick_ns * spokes_per_wheel <= u64::MAX,
        ensures
            w.wf(),
            w@.worker_id == worker_id,
            w@.l0.tick_resolution_ns == l0_tick_ns,
            w@.l1.tick_resolution_ns == l1_tick_ns,
            w@.l2.tick_resolution_ns == l2_tick_ns,
            w@.l0.num_spokes == spokes_per_wheel,
            w@.l1.num_spokes == spokes_per_wheel,
            w@.l2.num_spokes == spokes_per_wheel,
            w@.l0_coverage_ns == l0_tick_ns * spokes_per_wheel,
            w@.l1_coverage_ns == l1_tick_ns * spokes_per_wheel,
            w@.l2_coverage_ns == l2_tick_ns * spokes_per_wheel,
            w@.l0.config == (CompactionConfig {
                min_capacity_for_compaction: 64,
                compaction_ratio: 4,
                target_capacity_multiplier: 2,
            }),
            w@.l1.config == (CompactionConfig {
                min_capacity_for_compaction: 64,
                compaction_ratio: 4,
                target_capacity_multiplier: 2,
            }),
            w@.l2.config == (CompactionConfig {
                min_capacity_for_compaction: 64,
                compaction_ratio: 4,
                target_capacity_multiplier: 2,
            }),
            forall|i: int| 0 <= i < spokes_per_wheel ==> #[trigger] w@.l0.spokes[i] == fresh_spoke::<T>(16),
            forall|i: int| 0 <= i < spokes_per_wheel ==> #[trigger] w@.l1.spokes[i] == fresh_spoke::<T>(16),
            forall|i: int| 0 <= i < spokes_per_wheel ==> #[trigger] w@.l2.spokes[i] == fresh_spoke::<T>(16),
            w@.l0.current_tick == 0 && w@.l1.current_tick == 0 && w@.l2.current_tick == 0,
            w@.l0.cached_next_deadline == NULL_DEADLINE && w@.l1.cached_next_deadline == NULL_DEADLINE
                && w@.l2.cached_next_deadline == NULL_DEADLINE,
            w@.timer_count() == 0,
            w@.start_time_ns == 0,
            w@.now_ns == 0,
            w@.prev_l0_tick == 0 && w@.prev_l1_tick == 0 && w@.prev_l2_tick == 0,
    {
        let l0 = SingleWheel::new(l0_tick_ns, spokes_per_wheel);
        let l1 = SingleWheel::new(l1_tick_ns, spokes_per_wheel);
        let l2 = SingleWheel::new(l2_tick_ns, spokes_per_wheel);
        let l0_coverage_ns = l0.coverage_ns();
        let l1_coverage_ns = l1.coverage_ns();
        let l2_coverage_ns = l2.coverage_ns();
        TimerWheel {
            l0,
            l1,
            l2,
            start_time_ns: 0,
            now_ns: 0,
            prev_l0_tick: 0,
            prev_l1_tick: 0,
            prev_l2_tick: 0,
            worker_id,
            l0_coverage_ns,
            l1_coverage_ns,
            l2_coverage_ns,
        }
    }

    /// Sets the start time, which also becomes the current time.
    pub fn set_start_time_ns(&mut self, start_time_ns: u64)
        requires
            old(self).wf(),
        ensures
            final(self).wf(),
            final(self)@ == (TimerWheelState {
                l0: WheelState { start_time_ns, ..old(self)@.l0 },
                l1: WheelState { start_time_ns, ..old(self)@.l1 },
                l2: WheelState { start_time_ns, ..old(self)@.l2 },
                start_time_ns,
                now_ns: start_time_ns,
                ..old(self)@
            }),
    {
        self.start_time_ns = start_time_ns;
        self.now_ns = start_time_ns;
        self.l0.set_start_time_ns(start_time_ns);
        self.l1.set_start_time_ns(start_time_ns);
        self.l2.set_start_time_ns(start_time_ns);
    }

    /// The start time.
    pub fn start_time_ns(&self) -> (r: u64)
        ensures
            r == self@.start_time_ns,
    {
        self.start_time_ns
    }

    /// Longest supported timer duration: the coverage of the slow wheel.
    pub fn max_duration_ns(&self) -> (r: u64)
        ensures
            r == self@.l2_coverage_ns,
    {
        self.l2_coverage_ns
    }

    /// Schedules a timer for `deadline_ns` in the finest wheel whose coverage holds it
    /// (measured from the start time) and returns its id. Deadlines that are zero,
    /// before the start, or more than one fast tick in the past are refused, as are
    /// deadlines beyond the slow wheel's coverage.
    pub fn schedule_timer(&mut self, deadline_ns: u64, data: T) -> (r: Result<u64, TimerWheelError>)
        requires
            old(self).wf(),
            old(self)@.has_room(),
        ensures
            final(self).wf(),
            timer_scheduled(old(self)@, deadline_ns, data, r, final(self)@),
    {
        let now_ns = self.now_ns;
        if deadline_ns == 0 || deadline_ns < self.start_time_ns {
            return Err(TimerWheelError::InvalidDeadline);
        }
        if deadline_ns < now_ns.saturating_sub(self.l0.tick_resolution_ns()) {
            return Err(TimerWheelError::InvalidDeadline);
        }
        let relative_ns = deadline_ns.saturating_sub(self.start_time_ns);
        let (level, spoke, slot, generation) = if relative_ns < self.l0_coverage_ns {
            let (spoke, slot, generation) = match self.l0.schedule_with_data(deadline_ns, data) {
                Ok(t) => t,
                Err(e) => return Err(e),
            };
            (0u8, spoke, slot, generation)
        } else if relative_ns < self.l1_coverage_ns {
            let (spoke, slot, generation) = match self.l1.schedule_with_data(deadline_ns, data) {
                Ok(t) => t,
                Err(e) => return Err(e),
            };
            (1u8, spoke, slot, generation)
        } else if relative_ns < self.l2_coverage_ns {
            let (spoke, slot, generation) = match self.l2.schedule_with_data(deadline_ns, data) {
                Ok(t) => t,
                Err(e) => return Err(e),
            };
            (2u8, spoke, slot, generation)
        } else {
            return Err(TimerWheelError::DeadlineTooFar);
        };
        Ok(Self::encode_timer_id(level, spoke, slot, generation))
    }

    /// Schedules a timer toward `target_deadline_ns` in the finest wheel whose coverage
    /// holds the time remaining from now, and returns (id, deadline it fires at). A
    /// target not after now fires on the next fast tick (deadline now + 1); a target
    /// beyond the slow wheel's coverage is scheduled at now + that coverage - one slow
    /// tick, and must be rescheduled from there.
    pub fn schedule_timer_best_fit(&mut self, target_deadline_ns: u64, data: T) -> (r: Result<
        (u64, u64),
        TimerWheelError,
    >)
        requires
            old(self).wf(),
            old(self)@.has_room(),
            old(self)@.now_ns < u64::MAX,
            old(self)@.now_ns + old(self)@.l2_coverage_ns <= u64::MAX,
        ensures
            final(self).wf(),
            timer_scheduled_best_fit(old(self)@, target_deadline_ns, data, r, final(self)@),
    {
        let now_ns = self.now_ns;
        if target_deadline_ns == 0 || target_deadline_ns < self.start_time_ns {
            return Err(TimerWheelError::InvalidDeadline);
        }
        if target_deadline_ns <= now_ns {
            let immediate_deadline = now_ns + 1;
            let (spoke, slot, generation) = match self.l0.schedule_with_data(immediate_deadline, data) {
                Ok(t) => t,
                Err(e) => return Err(e),
            };
            let timer_id = Self::encode_timer_id(0, spoke, slot, generation);
            return Ok((timer_id, immediate_deadline));
        }
        let remaining_ns = target_deadline_ns - now_ns;
        if remaining_ns <= self.l0_coverage_ns {
            let (spoke, slot, generation) = match self.l0.schedule_with_data(target_deadline_ns, data) {
                Ok(t) => t,
                Err(e) => return Err(e),
            };
            let timer_id = Self::encode_timer_id(0, spoke, slot, generation);
            Ok((timer_id, target_deadline_ns))
        } else if remaining_ns <= self.l1_coverage_ns {
            let (spoke, slot, generation) = match self.l1.schedule_with_data(target_deadline_ns, data) {
                Ok(t) => t,
                Err(e) => return Err(e),
            };
            let timer_id = Self::encode_timer_id(1, spoke, slot, generation);
            Ok((timer_id, target_deadline_ns))
        } else if remaining_ns <= self.l2_coverage_ns {
            let (spoke, slot, generation) = match self.l2.schedule_with_data(target_deadline_ns, data) {
                Ok(t) => t,
                Err(e) => return Err(e),
            };
            let timer_id = Self::encode_timer_id(2, spoke, slot, generation);
            Ok((timer_id, target_deadline_ns))
        } else {
            proof {
                self.l2.lemma_wf_view();
                let t = self.l2@.tick_resolution_ns;
                let n = self.l2@.num_spokes;
                assert(t <= t * n) by (nonlinear_arith)
                    requires
                        n >= 1,
                ;
            }
            let wheel_deadline_ns = now_ns + self.l2_coverage_ns - self.l2.tick_resolution_ns();
            let (spoke, slot, generation) = match self.l2.schedule_with_data(wheel_deadline_ns, data) {
                Ok(t) => t,
                Err(e) => return Err(e),
            };
            let timer_id = Self::encode_timer_id(2, spoke, slot, generation);
            Ok((timer_id, wheel_deadline_ns))
        }
    }

    /// Polls the wheels for timers due at `now_ns`, at most `expiry_limit` of them,
    /// replacing the contents of `output` with (id, deadline, data) of each expired
    /// timer. The fast wheel is polled when its tick advanced or it holds timers,
    /// from the tick before its last polled one (so that a timer scheduled slightly
    /// in the past fires now), the other wheels when their tick advanced. Returns
    /// the number of expired timers.
    #[verifier::spinoff_prover]
    pub fn poll(&mut self, now_ns: u64, expiry_limit: usize, output: &mut Vec<(u64, u64, T)>) -> (r: usize)
        requires
            old(self).wf(),
            tick_fits(tick_of(old(self)@.l0, now_ns), old(self)@.l0.num_spokes),
            tick_fits(tick_of(old(self)@.l1, now_ns), old(self)@.l1.num_spokes),
            tick_fits(tick_of(old(self)@.l2, now_ns), old(self)@.l2.num_spokes),
        ensures
            final(self).wf(),
            r <= expiry_limit,
            final(output)@.len() == r,
            final(self)@.timer_count() == old(self)@.timer_count() - r,
            forall|j: int| 0 <= j < r ==> #[trigger] polled_item(old(self)@, now_ns, final(output)@[j]),
            final(self)@.now_ns == now_ns,
            final(self)@.prev_l0_tick == tick_of(old(self)@.l0, now_ns),
            final(self)@.prev_l1_tick == tick_of(old(self)@.l1, now_ns),
            final(self)@.prev_l2_tick == tick_of(old(self)@.l2, now_ns),
            final(self)@.start_time_ns == old(self)@.start_time_ns,
            final(self)@.worker_id == old(self)@.worker_id,
            final(self)@.l0_coverage_ns == old(self)@.l0_coverage_ns,
            final(self)@.l1_coverage_ns == old(self)@.l1_coverage_ns,
            final(self)@.l2_coverage_ns == old(self)@.l2_coverage_ns,
            tick_of(old(self)@.l1, now_ns) <= old(self)@.prev_l1_tick ==> final(self)@.l1 == old(self)@.l1,
            tick_of(old(self)@.l2, now_ns) <= old(self)@.prev_l2_tick ==> final(self)@.l2 == old(self)@.l2,
            r < expiry_limit && old(self)@.l0.timer_count > 0 ==> level_swept(
                old(self)@.l0,
                l0_scan_start(old(self)@.prev_l0_tick),
                tick_of(old(self)@.l0, now_ns),
                now_ns,
                final(self)@.l0,
            ),
            r < expiry_limit && old(self)@.l1.timer_count > 0 && tick_of(old(self)@.l1, now_ns)
                > old(self)@.prev_l1_tick ==> level_swept(
                old(self)@.l1,
                old(self)@.prev_l1_tick,
                tick_of(old(self)@.l1, now_ns),
                now_ns,
                final(self)@.l1,
            ),
            r < expiry_limit && old(self)@.l2.timer_count > 0 && tick_of(old(self)@.l2, now_ns)
                > old(self)@.prev_l2_tick ==> level_swept(
                old(self)@.l2,
                old(self)@.prev_l2_tick,
                tick_of(old(self)@.l2, now_ns),
                now_ns,
                final(self)@.l2,
            ),
    {
        proof {
            self.l0.lemma_wf_view();
            self.l1.lemma_wf_view();
            self.l2.lemma_wf_view();
        }
        let ghost o = self@;
        self.now_ns = now_ns;
        output.clear();
        let relative_ns = now_ns.saturating_sub(self.start_time_ns);
        let mut total_expired: usize = 0;
        let l0_tick = relative_ns >> self.l0.tick_shift();
        let l1_tick = relative_ns >> self.l1.tick_shift();
        let l2_tick = relative_ns >> self.l2.tick_shift();
        let mut wheel_output: Vec<(usize, usize, u32, u64, T)> = Vec::new();
        let ghost mut c0: int = 0;
        let ghost mut c1: int = 0;
        let ghost mut c2: int = 0;
        let ghost mut rem1: int = 0;
        let ghost mut rem2: int = 0;
        if l0_tick > self.prev_l0_tick || self.l0.timer_count() > 0 {
            let remaining = expiry_limit.saturating_sub(total_expired);
            wheel_output.clear();
            let ghost out_before = output@;
            let scan_from = l0_scan_from(self.prev_l0_tick);
            let count = self.l0.poll(now_ns, scan_from, l0_tick, remaining, &mut wheel_output);
            proof {
                c0 = count as int;
            }
            let ghost wo = wheel_output@;
            append_ids(0, &mut wheel_output, output);
            proof {
                lemma_append_produced(o.l0, 0, now_ns, wo, out_before, output@);
            }
            total_expired = total_expired + count;
        }
        self.prev_l0_tick = l0_tick;
        proof {
            assert forall|j: int| 0 <= j < output@.len() implies #[trigger] polled_item(o, now_ns, output@[j]) by {
                assert(produced(o.l0, 0, now_ns, output@[j]));
            }
        }
        if l1_tick > self.prev_l1_tick {
            let remaining = expiry_limit.saturating_sub(total_expired);
            if remaining > 0 {
                wheel_output.clear();
                let ghost out_before = output@;
                let count = self.l1.poll(now_ns, self.prev_l1_tick, l1_tick, remaining, &mut wheel_output);
                proof {
                    c1 = count as int;
                    rem1 = remaining as int;
                }
                let ghost wo = wheel_output@;
                append_ids(1, &mut wheel_output, output);
                proof {
                    lemma_append_produced(o.l1, 1, now_ns, wo, out_before, output@);
                    assert forall|j: int| 0 <= j < output@.len() implies #[trigger] polled_item(o, now_ns, output@[j]) by {
                        if j < out_before.len() {
                            assert(polled_item(o, now_ns, out_before[j]));
                        } else {
                            assert(produced(o.l1, 1, now_ns, output@[j]));
                        }
                    }
                }
                total_expired = total_expired + count;
            }
        }
        self.prev_l1_tick = l1_tick;
        if l2_tick > self.prev_l2_tick {
            let remaining = expiry_limit.saturating_sub(total_expired);
            if remaining > 0 {
                wheel_output.clear();
                let ghost out_before = output@;
                let count = self.l2.poll(now_ns, self.prev_l2_tick, l2_tick, remaining, &mut wheel_output);
                proof {
                    c2 = count as int;
                    rem2 = remaining as int;
                }
                let ghost wo = wheel_output@;
                append_ids(2, &mut wheel_output, output);
                proof {
                    lemma_append_produced(o.l2, 2, now_ns, wo, out_before, output@);
                    assert forall|j: int| 0 <= j < output@.len() implies #[trigger] polled_item(o, now_ns, output@[j]) by {
                        if j < out_before.len() {
                            assert(polled_item(o, now_ns, out_before[j]));
                        } else {
                            assert(produced(o.l2, 2, now_ns, output@[j]));
                        }
                    }
                }
                total_expired = total_expired + count;
            }
        }
        self.prev_l2_tick = l2_tick;
        total_expired
    }

    /// The occupancy of each level.
    pub fn memory_stats(&self) -> (r: TimerWheelMemoryStats)
        requires
            self.wf(),
            crate::seqs::sum_nat(slot_capacities(self@.l0.spokes)) <= usize::MAX,
            crate::seqs::sum_nat(slot_capacities(self@.l1.spokes)) <= usize::MAX,
            crate::seqs::sum_nat(slot_capacities(self@.l2.spokes)) <= usize::MAX,
        ensures
            r.l0.num_spokes == self@.l0.num_spokes,
            r.l1.num_spokes == self@.l1.num_spokes,
            r.l2.num_spokes == self@.l2.num_spokes,
            r.l0.total_slot_capacity == crate::seqs::sum_nat(slot_capacities(self@.l0.spokes)),
            r.l1.total_slot_capacity == crate::seqs::sum_nat(slot_capacities(self@.l1.spokes)),
            r.l2.total_slot_capacity == crate::seqs::sum_nat(slot_capacities(self@.l2.spokes)),
            r.l0.active_timers == self@.l0.timer_count,
            r.l1.active_timers == self@.l1.timer_count,
            r.l2.active_timers == self@.l2.timer_count,
    {
        TimerWheelMemoryStats { l0: self.l0.memory_stats(), l1: self.l1.memory_stats(), l2: self.l2.memory_stats() }
    }

    /// Whether one more timer fits on every level (see `has_room` of the state).
    pub fn has_room(&self) -> (r: bool)
        ensures
            r == self@.has_room(),
    {
        self.l0.has_room() && self.l1.has_room() && self.l2.has_room()
    }

    /// Whether polling at `now_ns` keeps every level's tick arithmetic in range.
    pub fn can_poll(&self, now_ns: u64) -> (r: bool)
        requires
            self.wf(),
        ensures
            r == (tick_fits(tick_of(self@.l0, now_ns), self@.l0.num_spokes) && tick_fits(
                tick_of(self@.l1, now_ns),
                self@.l1.num_spokes,
            ) && tick_fits(tick_of(self@.l2, now_ns), self@.l2.num_spokes)),
    {
        proof {
            self.lemma_wf_levels();
        }
        level_can_poll(&self.l0, self.start_time_ns, now_ns) && level_can_poll(&self.l1, self.start_time_ns, now_ns)
            && level_can_poll(&self.l2, self.start_time_ns, now_ns)
    }

    /// Fast wheel coverage in nanoseconds.
    pub fn l0_coverage_ns(&self) -> (r: u64)
        ensures
            r == self@.l0_coverage_ns,
    {
        self.l0_coverage_ns
    }

    /// Medium wheel coverage in nanoseconds.
    pub fn l1_coverage_ns(&self) -> (r: u64)
        ensures
            r == self@.l1_coverage_ns,
    {
        self.l1_coverage_ns
    }

    /// Slow wheel coverage in nanoseconds.
    pub fn l2_coverage_ns(&self) -> (r: u64)
        ensures
            r == self@.l2_coverage_ns,
    {
        self.l2_coverage_ns
    }

    /// Cancels the timer `timer_id` names, returning its data.
    pub fn cancel_timer(&mut self, timer_id: u64) -> (r: Result<T, TimerWheelError>)
        requires
            old(self).wf(),
        ensures
            final(self).wf(),
            final(self)@ == cancelled_state(old(self)@, timer_id),
            r == (if id_fields(timer_id).0 > 2 {
                Err::<T, TimerWheelError>(TimerWheelError::InvalidTimerId)
            } else {
                cancel_result(
                    old(self)@.level(id_fields(timer_id).0),
                    id_fields(timer_id).1,
                    id_fields(timer_id).2,
                    id_fields(timer_id).3,
                )
            }),
    {
        let (level, spoke, slot, generation) = match Self::decode_timer_id(timer_id) {
            Ok(t) => t,
            Err(e) => return Err(e),
        };
        if level == 0 {
            self.l0.cancel(spoke, slot, generation)
        } else if level == 1 {
            self.l1.cancel(spoke, slot, generation)
        } else if level == 2 {
            self.l2.cancel(spoke, slot, generation)
        } else {
            Err(TimerWheelError::InvalidTimerId)
        }
    }

    /// Total number of timers.
    pub fn timer_count(&self) -> (r: u64)
        requires
            self.wf(),
            self@.timer_count() <= u64::MAX,
        ensures
            r == self@.timer_count(),
    {
        self.l0.timer_count() + self.l1.timer_count() + self.l2.timer_count()
    }

    /// Number of timers in the fast wheel.
    pub fn l0_timer_count(&self) -> (r: u64)
        ensures
            r == self@.l0.timer_count,
    {
        self.l0.timer_count()
    }

    /// Number of timers in the medium wheel.
    pub fn l1_timer_count(&self) -> (r: u64)
        ensures
            r == self@.l1.timer_count,
    {
        self.l1.timer_count()
    }

    /// Number of timers in the slow wheel.
    pub fn l2_timer_count(&self) -> (r: u64)
        ensures
            r == self@.l2.timer_count,
    {
        self.l2.timer_count()
    }

    /// Tick resolution of the slow wheel.
    pub fn l2_tick_resolution_ns(&self) -> (r: u64)
        ensures
            r == self@.l2.tick_resolution_ns,
    {
        self.l2.tick_resolution_ns()
    }

    /// The earliest deadline over the three wheels.
    pub fn next_deadline(&mut self) -> (r: Option<u64>)
        requires
            old(self).wf(),
        ensures
            final(self).wf(),
            next_deadline_found(old(self)@, r, final(self)@),
    {
        let d0 = self.l0.next_deadline();
        let d1 = self.l1.next_deadline();
        let d2 = self.l2.next_deadline();
        let ab = match (d0, d1) {
            (Some(x), Some(y)) => Some(if x <= y {
                x
            } else {
                y
            }),
            (Some(x), None) => Some(x),
            (None, y) => y,
        };
        let r = match (ab, d2) {
            (Some(x), Some(y)) => Some(if x <= y {
                x
            } else {
                y
            }),
            (Some(x), None) => Some(x),
            (None, y) => y,
        };
        proof {
            assert(next_deadline_step(old(self)@.l0, d0, self@.l0));
            assert(next_deadline_step(old(self)@.l1, d1, self@.l1));
            assert(next_deadline_step(old(self)@.l2, d2, self@.l2));
            assert(next_deadline_step(old(self)@.l0, d0, self@.l0) && next_deadline_step(old(self)@.l1, d1, self@.l1)
                && next_deadline_step(old(self)@.l2, d2, self@.l2) && r == min3(d0, d1, d2));
        }
        r
    }

    /// The current time.
    pub fn now_ns(&self) -> (r: u64)
        ensures
            r == self@.now_ns,
    {
        self.now_ns
    }

    /// Sets the current time.
    pub fn set_now_ns(&mut self, now_ns: u64)
        requires
            old(self).wf(),
        ensures
            final(self).wf(),
            final(self)@ == (TimerWheelState { now_ns, ..old(self)@ }),
    {
        self.now_ns = now_ns;
    }

    /// The worker this hierarchy belongs to.
    pub fn worker_id(&self) -> (r: u32)
        ensures
            r == self@.worker_id,
    {
        self.worker_id
    }

    /// Removes every timer and resets the previous ticks.
    pub fn clear(&mut self)
        requires
            old(self).wf(),
        ensures
            final(self).wf(),
            final(self)@.timer_count() == 0,
            final(self)@.prev_l0_tick == 0 && final(self)@.prev_l1_tick == 0 && final(self)@.prev_l2_tick
                == 0,
            final(self)@.now_ns == old(self)@.now_ns,
            final(self)@.start_time_ns == old(self)@.start_time_ns,
    {
        self.l0.clear();
        self.l1.clear();
        self.l2.clear();
        self.prev_l0_tick = 0;
        self.prev_l1_tick = 0;
        self.prev_l2_tick = 0;
    }

    /// Compacts every spoke of every wheel that has a free slot.
    pub fn compact_all(&mut self)
        requires
            old(self).wf(),
        ensures
            final(self).wf(),
            final(self)@ == (TimerWheelState {
                l0: level_compacted(old(self)@.l0),
                l1: level_compacted(old(self)@.l1),
                l2: level_compacted(old(self)@.l2),
                ..old(self)@
            }),
            final(self)@.timer_count() == old(self)@.timer_count(),
    {
        self.l0.compact_all();
        self.l1.compact_all();
        self.l2.compact_all();
    }

    /// Packs (level, spoke, slot, generation) into a timer id, keeping the low 2, 12,
    /// 28 and 22 bits of them.
    pub fn encode_timer_id(level: u8, spoke: usize, slot: usize, generation: u32) -> (r: u64)
        ensures
            r == timer_id_of(level, spoke, slot, generation),
    {
        ((level as u64) << 62u64) | (((generation as u64) & 0x3FFFFFu64) << 40u64) | (((spoke as u64)
            & 0xFFFu64) << 28u64) | ((slot as u64) & 0xFFFFFFFu64)
    }

    /// Unpacks a timer id; ids with level 3 are refused.
    pub fn decode_timer_id(timer_id: u64) -> (r: Result<(u8, usize, usize, u32), TimerWheelError>)
        ensures
            r == if id_fields(timer_id).0 > 2 {
                Err(TimerWheelError::InvalidTimerId)
            } else {
                Ok::<(u8, usize, usize, u32), TimerWheelError>(id_fields(timer_id))
            },
    {
        let level = ((timer_id >> 62u64) & 0x3u64) as u8;
        let generation = ((timer_id >> 40u64) & 0x3FFFFFu64) as u32;
        let spoke = ((timer_id >> 28u64) & 0xFFFu64) as usize;
        let slot = (timer_id & 0xFFFFFFFu64) as usize;
        if level > 2 {
            return Err(TimerWheelError::InvalidTimerId);
        }
        Ok((level, spoke, slot, generation))
    }
}

/// Decoding an encoded timer id gives back its level and the low bits of its spoke,
/// slot and generation, for every level a hierarchy has.
pub proof fn lemma_timer_id_roundtrip(level: u8, spoke: usize, slot: usize, generation: u32)
    requires
        level <= 2,
    ensures
        id_fields(timer_id_of(level, spoke, slot, generation)) == (
            level,
            spoke & 0xFFF,
            slot & 0xFFFFFFF,
            generation & 0x3FFFFF,
        ),
{
    let l = level as u64;
    let s = spoke as u64;
    let sl = slot as u64;
    let g = generation as u64;
    let id = timer_id_of(level, spoke, slot, generation);
    assert(id == (l << 62u64) | ((g & 0x3FFFFFu64) << 40u64) | ((s & 0xFFFu64) << 28u64) | (sl
        & 0xFFFFFFFu64));
    assert(((id >> 62u64) & 0x3u64) == l && ((id >> 28u64) & 0xFFFu64) == s & 0xFFFu64 && (id
        & 0xFFFFFFFu64) == sl & 0xFFFFFFFu64 && ((id >> 40u64) & 0x3FFFFFu64) == g & 0x3FFFFFu64)
        by (bit_vector)
        requires
            l <= 2,
            id == (l << 62u64) | ((g & 0x3FFFFFu64) << 40u64) | ((s & 0xFFFu64) << 28u64) | (sl
                & 0xFFFFFFFu64),
    ;
    assert((s & 0xFFFu64) as usize == spoke & 0xFFF) by (bit_vector)
        requires
            s == spoke as u64,
    ;
    assert((sl & 0xFFFFFFFu64) as usize == slot & 0xFFFFFFF) by (bit_vector)
        requires
            sl == slot as u64,
    ;
    assert((g & 0x3FFFFFu64) as u32 == generation & 0x3FFFFF) by (bit_vector)
        requires
            g == generation as u64,
    ;
}

/// The tick of wheel `w` at `now_ns`.
pub open spec fn tick_of<T>(w: WheelState<T>, now_ns: u64) -> u64 {
    let rel: u64 = if now_ns > w.start_time_ns {
        (now_ns - w.start_time_ns) as u64
    } else {
        0
    };
    rel >> w.tick_shift
}

/// A polled wheel item with its (spoke, slot, generation) packed into a timer id.
pub open spec fn id_item<T>(level: u8, it: (usize, usize, u32, u64, T)) -> (u64, u64, T) {
    (timer_id_of(level, it.0, it.1, it.2), it.3, it.4)
}

/// `x` is a due timer of wheel `w` at `level`, reported with its id.
pub open spec fn produced<T>(w: WheelState<T>, level: u8, now_ns: u64, x: (u64, u64, T)) -> bool {
    exists|it: (usize, usize, u32, u64, T)|
        x == id_item(level, it) && item_from(w.spokes[it.0 as int], now_ns, it) && it.0 < w.num_spokes
}

/// `x` is a due timer of one of the wheels of `o`, reported with its id.
pub open spec fn polled_item<T>(o: TimerWheelState<T>, now_ns: u64, x: (u64, u64, T)) -> bool {
    produced(o.l0, 0, now_ns, x) || produced(o.l1, 1, now_ns, x) || produced(o.l2, 2, now_ns, x)
}

proof fn lemma_append_produced<T>(
    w: WheelState<T>,
    level: u8,
    now_ns: u64,
    wo: Seq<(usize, usize, u32, u64, T)>,
    out_before: Seq<(u64, u64, T)>,
    out_after: Seq<(u64, u64, T)>,
)
    requires
        out_after.len() == out_before.len() + wo.len(),
        forall|j: int| 0 <= j < wo.len() ==> #[trigger] out_after[out_before.len() + j] == id_item(level, wo[j]),
        forall|j: int|
            0 <= j < wo.len() ==> #[trigger] item_from(w.spokes[wo[j].0 as int], now_ns, wo[j]) && wo[j].0
                < w.num_spokes,
    ensures
        forall|j: int| out_before.len() <= j < out_after.len() ==> #[trigger] produced(w, level, now_ns, out_after[j]),
{
    assert forall|j: int| out_before.len() <= j < out_after.len() implies #[trigger] produced(
        w,
        level,
        now_ns,
        out_after[j],
    ) by {
        let i = j - out_before.len();
        assert(out_after[out_before.len() + i] == id_item(level, wo[i]));
        assert(item_from(w.spokes[wo[i].0 as int], now_ns, wo[i]));
    }
}

/// Moves the items of `src`, in order, to the end of `output` with their (spoke,
/// slot, generation) packed into a timer id of `level`.
fn append_ids<T>(level: u8, src: &mut Vec<(usize, usize, u32, u64, T)>, output: &mut Vec<(u64, u64, T)>)
    ensures
        final(src)@.len() == 0,
        final(output)@.len() == old(output)@.len() + old(src)@.len(),
        forall|j: int| 0 <= j < old(output)@.len() ==> #[trigger] final(output)@[j] == old(output)@[j],
        forall|j: int|
            0 <= j < old(src)@.len() ==> #[trigger] final(output)@[old(output)@.len() + j] == id_item(
                level,
                old(src)@[j],
            ),
{
    let ghost s0 = src@;
    let n = src.len();
    let mut reversed: Vec<(usize, usize, u32, u64, T)> = Vec::new();
    while src.len() > 0
        invariant
            reversed@.len() + src@.len() == n,
            n == s0.len(),
            src@ == s0.take(src@.len() as int),
            forall|k: int| 0 <= k < reversed@.len() ==> #[trigger] reversed@[k] == s0[n - 1 - k],
        decreases src@.len(),
    {
        let it = src.pop().unwrap();
        reversed.push(it);
        proof {
            assert(src@ =~= s0.take(src@.len() as int));
        }
    }
    let ghost out0 = output@;
    while reversed.len() > 0
        invariant
            src@.len() == 0,
            n == s0.len(),
            reversed@.len() <= n,
            output@.len() == out0.len() + (n - reversed@.len()),
            forall|k: int| 0 <= k < reversed@.len() ==> #[trigger] reversed@[k] == s0[n - 1 - k],
            forall|j: int| 0 <= j < out0.len() ==> #[trigger] output@[j] == out0[j],
            forall|j: int|
                0 <= j < n - reversed@.len() ==> #[trigger] output@[out0.len() + j] == id_item(level, s0[j]),
        decreases reversed@.len(),
    {
        let ghost before = output@;
        let ghost r_before = reversed@;
        let (spoke, slot, generation, deadline_ns, data) = reversed.pop().unwrap();
        let id = TimerWheel::<T>::encode_timer_id(level, spoke, slot, generation);
        output.push((id, deadline_ns, data));
        proof {
            let i = n - r_before.len();
            assert(r_before[r_before.len() - 1] == s0[i]);
            assert(output@ == before.push((id, deadline_ns, data)));
            assert forall|j: int| 0 <= j < out0.len() implies #[trigger] output@[j] == out0[j] by {
                assert(output@[j] == before[j]);
            }
            assert forall|j: int| 0 <= j < n - reversed@.len() implies #[trigger] output@[out0.len() + j]
                == id_item(level, s0[j]) by {
                if j < i {
                    assert(output@[out0.len() + j] == before[out0.len() + j]);
                }
            }
        }
    }
}

/// A product of two powers of two is a power of two.
proof fn lemma_pow2_mul(a: int, b: int)
    requires
        is_pow2(a),
        is_pow2(b),
    ensures
        is_pow2(a * b),
{
    let i = choose|i: nat| vstd::arithmetic::power2::pow2(i) == a;
    let j = choose|j: nat| vstd::arithmetic::power2::pow2(j) == b;
    vstd::arithmetic::power2::lemma_pow2_adds(i, j);
    assert(vstd::arithmetic::power2::pow2(i + j) == a * b);
}

/// A power of two is positive.
proof fn lemma_pow2_positive(a: int)
    requires
        is_pow2(a),
    ensures
        a >= 1,
{
    let i = choose|i: nat| vstd::arithmetic::power2::pow2(i) == a;
    vstd::arithmetic::power2::lemma_pow2_pos(i);
}

/// Bounds on the partial products of `x * t * t * t` for positive factors.
proof fn lemma_mul_chain_bounds(x: int, t: int)
    by (nonlinear_arith)
    requires
        x >= 0,
        t >= 1,
    ensures
        x <= x * t,
        x * t <= x * t * t,
        x * t * t <= x * t * t * t,
{
}

/// Occupancy of the three levels of a timer wheel.
#[derive(Debug, Clone, Copy)]
pub struct TimerWheelMemoryStats {
    pub l0: WheelMemoryStats,
    pub l1: WheelMemoryStats,
    pub l2: WheelMemoryStats,
}

impl TimerWheelMemoryStats {
    /// Slots held by all levels.
    pub fn total_capacity(&self) -> (r: usize)
        requires
            self.l0.total_slot_capacity + self.l1.total_slot_capacity + self.l2.total_slot_capacity <= usize::MAX,
        ensures
            r == self.l0.total_slot_capacity + self.l1.total_slot_capacity + self.l2.total_slot_capacity,
    {
        self.l0.total_slot_capacity + self.l1.total_slot_capacity + self.l2.total_slot_capacity
    }

    /// Active timers on all levels.
    pub fn total_active(&self) -> (r: usize)
        requires
            self.l0.active_timers + self.l1.active_timers + self.l2.active_timers <= usize::MAX,
        ensures
            r == self.l0.active_timers + self.l1.active_timers + self.l2.active_timers,
    {
        self.l0.active_timers + self.l1.active_timers + self.l2.active_timers
    }
}

/// Whether polling one level at `now_ns` keeps its tick arithmetic in range.
fn level_can_poll<T>(w: &SingleWheel<T>, start: u64, now_ns: u64) -> (r: bool)
    requires
        w@.start_time_ns == start,
        w@.tick_shift < 64,
    ensures
        r == tick_fits(tick_of(w@, now_ns), w@.num_spokes),
{
    let rel: u64 = if now_ns > start {
        now_ns - start
    } else {
        0
    };
    let shift = w.tick_shift();
    let tick = rel >> shift;
    (tick as u128) + (w.num_spokes() as u128) <= usize::MAX as u128
}

/// A wheel's tick at a time at or after its start is the time counted from the
/// start divided by the tick length `2^tick_shift`; before the start it is 0.
pub proof fn lemma_tick_of_relative<T>(w: WheelState<T>, now_ns: u64)
    requires
        w.tick_shift < 64,
    ensures
        now_ns >= w.start_time_ns ==> tick_of(w, now_ns) == (now_ns - w.start_time_ns)
            / vstd::arithmetic::power2::pow2(w.tick_shift as nat) as int,
        now_ns < w.start_time_ns ==> tick_of(w, now_ns) == 0,
{
    let rel: u64 = if now_ns > w.start_time_ns {
        (now_ns - w.start_time_ns) as u64
    } else {
        0
    };
    vstd::bits::lemma_u64_shr_is_div(rel, w.tick_shift as u64);
    vstd::arithmetic::power2::lemma_pow2_pos(w.tick_shift as nat);
    assert(rel >> (w.tick_shift as u64) == rel >> w.tick_shift);
    assert(0nat / vstd::arithmetic::power2::pow2(w.tick_shift as nat) == 0);
}

/// Whether wheel `w` holds, in the spoke of the tick of `deadline_ns` counted from
/// its start, a timer with that deadline and data `data`.
pub open spec fn holds_in_tick_spoke<T>(w: WheelState<T>, deadline_ns: u64, data: T) -> bool {
    let si = ((deadline_ns - w.start_time_ns) / vstd::arithmetic::power2::pow2(w.tick_shift as nat) as int) % (
    w.num_spokes as int);
    exists|k: int|
        0 <= k < w.spokes[si].entries.len() && #[trigger] w.spokes[si].entries[k] is Some
            && w.spokes[si].entries[k]->0.deadline_ns == deadline_ns && w.spokes[si].entries[k]->0.data == data
}

/// A scheduled timer goes to the fastest wheel whose coverage exceeds its deadline
/// counted from the start (the fast wheel below its coverage, the medium one from
/// there to its own, the slow one beyond), into the spoke of its tick on that wheel.
pub proof fn lemma_schedule_timer_placement<T>(
    o: TimerWheelState<T>,
    deadline_ns: u64,
    data: T,
    r: Result<u64, TimerWheelError>,
    f: TimerWheelState<T>,
)
    requires
        o.l0.wf(),
        o.l1.wf(),
        o.l2.wf(),
        o.l0.start_time_ns == o.start_time_ns,
        o.l1.start_time_ns == o.start_time_ns,
        o.l2.start_time_ns == o.start_time_ns,
        timer_scheduled(o, deadline_ns, data, r, f),
        r is Ok,
    ensures
        deadline_ns >= o.start_time_ns,
        ({
            let rel = deadline_ns - o.start_time_ns;
            let level = id_fields(r->Ok_0).0;
            &&& level <= 2
            &&& level == 0 ==> rel < o.l0_coverage_ns && holds_in_tick_spoke(f.l0, deadline_ns, data)
            &&& level == 1 ==> o.l0_coverage_ns <= rel < o.l1_coverage_ns && holds_in_tick_spoke(
                f.l1,
                deadline_ns,
                data,
            )
            &&& level == 2 ==> o.l1_coverage_ns <= rel < o.l2_coverage_ns && holds_in_tick_spoke(
                f.l2,
                deadline_ns,
                data,
            )
        }),
{
    let rel = (deadline_ns - o.start_time_ns) as u64;
    if rel < o.l0_coverage_ns {
        let t = schedule_id(o.l0, deadline_ns);
        lemma_timer_id_roundtrip(0, t.0, t.1, t.2);
        lemma_schedule_places_timer(o.l0, deadline_ns, data);
        assert(f.l0.spokes[t.0 as int].entries[t.1 as int] is Some);
    } else if rel < o.l1_coverage_ns {
        let t = schedule_id(o.l1, deadline_ns);
        lemma_timer_id_roundtrip(1, t.0, t.1, t.2);
        lemma_schedule_places_timer(o.l1, deadline_ns, data);
        assert(f.l1.spokes[t.0 as int].entries[t.1 as int] is Some);
    } else {
        let t = schedule_id(o.l2, deadline_ns);
        lemma_timer_id_roundtrip(2, t.0, t.1, t.2);
        lemma_schedule_places_timer(o.l2, deadline_ns, data);
        assert(f.l2.spokes[t.0 as int].entries[t.1 as int] is Some);
    }
}

} // verus!
