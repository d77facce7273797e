use vstd::prelude::*;

use crate::bits::{
    bit_set, find_nearest, lemma_bit_and, lemma_bit_low_mask, lemma_bit_max, lemma_zero_iff_no_bit,
};
use crate::scheduler::WorkerStats;
use crate::summary::{signal_activated, Summary, SummaryState};
use crate::task_signals::{
    bit_scheduled, lemma_take_keeps_summary_exact, leaf_has_task, shaped, signal_word, slot_bit, slot_signal,
    summary_matches, task_taken, TaskSignals, TaskSignalsState,
};
use crate::mpsc::lcg_next;
use crate::worker::{keeps_timers_and_partition, Worker};

verus! {

/// What polling a task's future gave.
#[derive(Clone, Copy, Debug, PartialEq, Eq, Structural)]
pub enum PollResult {
    /// The future completed.
    Ready,
    /// The future is not done yet.
    Pending,
    /// The task had no future left (it completed or was cancelled).
    Gone,
}

/// What resuming a task's pinned generator gave.
#[derive(Clone, Copy, Debug, PartialEq, Eq, Structural)]
pub enum GeneratorOutcome {
    /// The generator yielded a status: 1 when the task completed, 2 when its future
    /// was dropped, anything else while the task is still pending.
    Yielded(usize),
    /// The generator ran to its end.
    Finished,
    /// The task had no generator to resume.
    Missing,
}

/// The state a run pass carries between polls: whether a polled task pinned the
/// worker's generator, so the pass must give up the generator.
pub struct RunContext {
    pub pinned: bool,
}

impl RunContext {
    /// A context with nothing pinned.
    pub fn new() -> (c: Self)
        ensures
            !c.pinned,
    {
        RunContext { pinned: false }
    }

    /// Records that a task pinned the generator.
    pub fn mark_pinned(&mut self)
        ensures
            final(self).pinned,
    {
        self.pinned = true;
    }

    /// Whether the pass must leave its generator.
    pub fn should_exit_generator(&self) -> (r: bool)
        ensures
            r == self.pinned,
    {
        self.pinned
    }
}

/// Whether no signal below `signals_per_leaf` is marked in the summary word `word`.
pub open spec fn no_signal_in(word: u64, signals_per_leaf: int) -> bool {
    forall|b: u64| b < 64 && (b as int) < signals_per_leaf ==> !#[trigger] bit_set(word, b)
}

/// `x + 1`, saturating.
pub open spec fn sat_inc(x: u64) -> u64 {
    if x == u64::MAX {
        x
    } else {
        (x + 1) as u64
    }
}

/// Whether `mask` has exactly the bits below `signals_per_leaf`.
pub open spec fn low_mask(mask: u64, signals_per_leaf: int) -> bool {
    forall|b: u64| b < 64 ==> (#[trigger] bit_set(mask, b) <==> (b as int) < signals_per_leaf)
}

/// Whether every set bit of `x` is below `bound`.
pub open spec fn bits_below(x: u64, bound: int) -> bool {
    forall|b: u64| b < 64 && #[trigger] bit_set(x, b) ==> (b as int) < bound
}

/// Whether the first `n` leaves from `start` hold no task.
pub open spec fn no_task_in(t: TaskSignalsState, start: int, n: int) -> bool {
    forall|l: int| start <= l < start + n ==> !#[trigger] leaf_has_task(t, l)
}

/// Whether a scan of the leaves `start..start + n` ended rightly: `None` leaves the
/// summary and the signals as they were; `Some((leaf, slot))` took task `slot` of a leaf
/// of the range.
pub open spec fn scanned(
    s: SummaryState,
    t: TaskSignalsState,
    start: int,
    n: int,
    r: Option<(usize, usize)>,
    fs: SummaryState,
    ft: TaskSignalsState,
) -> bool {
    match r {
        None => fs == s && ft == t,
        Some(found) => start <= found.0 < start + n && task_taken(s, t, found.0 as int, found.1 as int, fs, ft),
    }
}

/// Whether a linear scan of `start..start + n` found the first leaf that holds a task:
/// no leaf before the one it took from has a task, and with `None` no leaf of the range
/// has one.
pub open spec fn first_found(t: TaskSignalsState, start: int, n: int, r: Option<(usize, usize)>) -> bool {
    match r {
        None => no_task_in(t, start, n),
        Some(found) => no_task_in(t, start, found.0 - start),
    }
}

proof fn lemma_masked_below(w: u64, mask: u64, spl: int)
    requires
        low_mask(mask, spl),
    ensures
        bits_below(w & mask, spl),
{
    assert forall|b: u64| b < 64 && #[trigger] bit_set(w & mask, b) implies (b as int) < spl by {
        lemma_bit_and(w, mask, b);
    }
}

proof fn lemma_clear_below(a: u64, c: u64, spl: int)
    requires
        c < 64,
        bits_below(a, spl),
    ensures
        bits_below(a & !(1u64 << c), spl),
{
    assert forall|b: u64| b < 64 && #[trigger] bit_set(a & !(1u64 << c), b) implies (b as int) < spl by {
        lemma_bit_and(a, !(1u64 << c), b);
    }
}

/// With an exact summary, the masked summary word of a leaf that holds a task is not
/// zero.
proof fn lemma_word_shows_task(s: SummaryState, t: TaskSignalsState, leaf: int, mask: u64)
    requires
        shaped(s, t),
        summary_matches(s, t),
        0 <= leaf < t.leaf_count,
        leaf_has_task(t, leaf),
        low_mask(mask, t.signals_per_leaf as int),
    ensures
        s.leaf_words[leaf] & mask != 0,
{
    let g = choose|g: int| 0 <= g < t.signals_per_leaf && #[trigger] signal_word(t, leaf, g) != 0;
    assert(signal_word(t, leaf, g) != 0);
    assert(bit_set(s.leaf_words[leaf], g as u64));
    assert(bit_set(mask, g as u64));
    lemma_bit_and(s.leaf_words[leaf], mask, g as u64);
    lemma_zero_iff_no_bit(s.leaf_words[leaf] & mask);
}

/// With an exact summary, a set bit of the masked summary word of a leaf names a
/// signal whose word is not zero.
proof fn lemma_bit_names_task(s: SummaryState, t: TaskSignalsState, leaf: int, mask: u64, c: u64)
    requires
        shaped(s, t),
        summary_matches(s, t),
        0 <= leaf < t.leaf_count,
        low_mask(mask, t.signals_per_leaf as int),
        c < 64,
        bit_set(s.leaf_words[leaf] & mask, c),
    ensures
        (c as int) < t.signals_per_leaf,
        signal_word(t, leaf, c as int) != 0,
{
    lemma_bit_and(s.leaf_words[leaf], mask, c);
    assert(signal_word(t, leaf, c as int) != 0 <==> bit_set(s.leaf_words[leaf], c));
}

/// The draw a worker's next random choice uses when its generator is at `seed`: the
/// high bits of the next seed.
pub open spec fn first_draw(seed: u64) -> usize {
    (lcg_next(seed) >> 16u64) as usize
}

/// The index among `n` that the draw `draw` picks: its low bits when `n` is a power
/// of two, else its remainder by `n`.
pub open spec fn draw_index(draw: usize, n: usize) -> usize {
    if n != 0 && n & ((n - 1) as usize) == 0 {
        draw & ((n - 1) as usize)
    } else {
        (draw % n) as usize
    }
}

/// Whether `n` is a power of two.
fn is_power_of_two(n: usize) -> (r: bool)
    ensures
        r == (n != 0 && n & ((n - 1) as usize) == 0),
{
    n != 0 && n & (n - 1) == 0
}

impl Worker {
    /// Tries to take one scheduled task of leaf `leaf_idx` and returns its slot
    /// (`signal * 64 + bit`). The worker picks an active signal of the leaf's summary
    /// word nearest to a random start, then the set bit of that signal nearest to a
    /// random bit, for at most two attempts; it clears the task's bit, and when the
    /// signal is left empty clears the signal's summary bit. `None` changes neither the
    /// summary nor the signals. When the summary shows exactly the signals that hold a
    /// task, a task is found whenever the leaf has one, and the summary stays exact.
    #[verifier::rlimit(100)]
    #[verifier::spinoff_prover]
    pub fn try_acquire_task(&mut self, summary: &mut Summary, signals: &mut TaskSignals, leaf_idx: usize) -> (r:
        Option<usize>)
        requires
            old(summary).wf(),
            old(signals).wf(),
            old(summary)@.leaf_count == old(signals)@.leaf_count,
            old(summary)@.signals_per_leaf == old(signals)@.signals_per_leaf,
            leaf_idx < old(signals)@.leaf_count,
        ensures
            final(summary).wf(),
            final(signals).wf(),
            keeps_timers_and_partition(*old(self), *final(self)),
            final(self).stats.leaf_steal_attempts == old(self).stats.leaf_steal_attempts,
            final(self).stats.leaf_steal_successes == old(self).stats.leaf_steal_successes,
            r is None ==> final(summary)@ == old(summary)@ && final(signals)@ == old(signals)@,
            r matches Some(slot) ==> task_taken(
                old(summary)@,
                old(signals)@,
                leaf_idx as int,
                slot as int,
                final(summary)@,
                final(signals)@,
            ),
            summary_matches(old(summary)@, old(signals)@) ==> summary_matches(final(summary)@, final(signals)@)
                && (r is Some <==> leaf_has_task(old(signals)@, leaf_idx as int)),
            no_signal_in(old(summary)@.leaf_words[leaf_idx as int], old(summary)@.signals_per_leaf as int) ==> {
                &&& r is None
                &&& final(self).stats == (WorkerStats {
                    leaf_summary_checks: sat_inc(old(self).stats.leaf_summary_checks),
                    empty_scans: sat_inc(old(self).stats.empty_scans),
                    ..old(self).stats
                })
            },
    {
        let ghost s0 = summary@;
        let ghost t0 = signals@;
        proof {
            summary.lemma_wf_shape();
            signals.lemma_wf_shape();
        }
        let ghost exact = summary_matches(s0, t0) && leaf_has_task(t0, leaf_idx as int);
        let signals_per_leaf = summary.signals_per_leaf();
        if signals_per_leaf == 0 {
            return None;
        }
        let mask: u64 = if signals_per_leaf >= 64 {
            u64::MAX
        } else {
            let n = signals_per_leaf as u64;
            proof {
                assert(1u64 << n >= 1) by (bit_vector)
                    requires
                        n < 64,
                ;
            }
            (1u64 << n) - 1
        };
        proof {
            assert forall|b: u64| b < 64 implies (#[trigger] bit_set(mask, b) <==> (b as int)
                < signals_per_leaf) by {
                if signals_per_leaf >= 64 {
                    lemma_bit_max(b);
                } else {
                    lemma_bit_low_mask(signals_per_leaf as u64, b);
                }
            }
            lemma_masked_below(s0.leaf_words[leaf_idx as int], mask, signals_per_leaf as int);
            if exact {
                lemma_word_shows_task(s0, t0, leaf_idx as int, mask);
            }
            let w = s0.leaf_words[leaf_idx as int];
            if no_signal_in(w, signals_per_leaf as int) {
                assert forall|b: u64| b < 64 implies !bit_set(w & mask, b) by {
                    lemma_bit_and(w, mask, b);
                }
                lemma_zero_iff_no_bit(w & mask);
            }
        }
        self.stats.leaf_summary_checks = self.stats.leaf_summary_checks.saturating_add(1);
        let mut available = summary.leaf_word(leaf_idx) & mask;
        if available == 0 {
            self.stats.empty_scans = self.stats.empty_scans.saturating_add(1);
            return None;
        }
        self.stats.leaf_summary_hits = self.stats.leaf_summary_hits.saturating_add(1);
        let ghost idle = no_signal_in(s0.leaf_words[leaf_idx as int], signals_per_leaf as int);
        let mut attempts: u32 = 2;
        while available != 0 && attempts > 0
            invariant
                summary.wf(),
                signals.wf(),
                summary@ == s0,
                signals@ == t0,
                s0 == old(summary)@,
                t0 == old(signals)@,
                shaped(s0, t0),
                leaf_idx < t0.leaf_count,
                signals_per_leaf == t0.signals_per_leaf,
                low_mask(mask, signals_per_leaf as int),
                bits_below(available, signals_per_leaf as int),
                exact == (summary_matches(s0, t0) && leaf_has_task(t0, leaf_idx as int)),
                !idle,
                idle == no_signal_in(old(summary)@.leaf_words[leaf_idx as int], old(summary)@.signals_per_leaf as int),
                exact ==> available == s0.leaf_words[leaf_idx as int] & mask && available != 0 && attempts
                    == 2,
                keeps_timers_and_partition(*old(self), *self),
                self.stats.leaf_steal_attempts == old(self).stats.leaf_steal_attempts,
                self.stats.leaf_steal_successes == old(self).stats.leaf_steal_successes,
            ensures
                summary.wf(),
                signals.wf(),
                summary@ == s0,
                signals@ == t0,
                !exact,
                !idle,
                idle == no_signal_in(old(summary)@.leaf_words[leaf_idx as int], old(summary)@.signals_per_leaf as int),
                keeps_timers_and_partition(*old(self), *self),
                self.stats.leaf_steal_attempts == old(self).stats.leaf_steal_attempts,
                self.stats.leaf_steal_successes == old(self).stats.leaf_steal_successes,
            decreases attempts,
        {
            let start = (self.next_u64() as usize) % signals_per_leaf;
            let mut found: Option<usize> = None;
            loop
                invariant_except_break
                    found is None,
                invariant
                    summary.wf(),
                    signals.wf(),
                    summary@ == s0,
                    signals@ == t0,
                    s0 == old(summary)@,
                    t0 == old(signals)@,
                    shaped(s0, t0),
                    leaf_idx < t0.leaf_count,
                    signals_per_leaf == t0.signals_per_leaf,
                    start < signals_per_leaf,
                    low_mask(mask, signals_per_leaf as int),
                    bits_below(available, signals_per_leaf as int),
                    exact == (summary_matches(s0, t0) && leaf_has_task(t0, leaf_idx as int)),
                    !idle,
                    idle == no_signal_in(old(summary)@.leaf_words[leaf_idx as int], old(summary)@.signals_per_leaf as int),
                    exact ==> available == s0.leaf_words[leaf_idx as int] & mask && available != 0
                        && attempts == 2,
                    keeps_timers_and_partition(*old(self), *self),
                    self.stats.leaf_steal_attempts == old(self).stats.leaf_steal_attempts,
                    self.stats.leaf_steal_successes == old(self).stats.leaf_steal_successes,
                ensures
                    found is None ==> attempts == 0,
                    found matches Some(i) ==> attempts > 0 && i < signals_per_leaf && signal_word(
                        t0,
                        leaf_idx as int,
                        i as int,
                    ) != 0,
                decreases attempts,
            {
                if attempts == 0 {
                    break;
                }
                let candidate = find_nearest(available, start as u64);
                if candidate >= 64 {
                    self.stats.leaf_summary_checks = self.stats.leaf_summary_checks.saturating_add(1);
                    available = summary.leaf_word(leaf_idx) & mask;
                    proof {
                        lemma_masked_below(s0.leaf_words[leaf_idx as int], mask, signals_per_leaf as int);
                    }
                    if available == 0 {
                        self.stats.empty_scans = self.stats.empty_scans.saturating_add(1);
                        return None;
                    }
                    self.stats.leaf_summary_hits = self.stats.leaf_summary_hits.saturating_add(1);
                    attempts = attempts - 1;
                    continue;
                }
                proof {
                    assert(bit_set(available, candidate));
                    if exact {
                        lemma_bit_names_task(s0, t0, leaf_idx as int, mask, candidate);
                    }
                }
                let bit_index = candidate as usize;
                let bits = signals.load(leaf_idx, bit_index);
                if bits == 0 {
                    proof {
                        lemma_clear_below(available, candidate, signals_per_leaf as int);
                    }
                    available = available & !(1u64 << candidate);
                    attempts = attempts - 1;
                    continue;
                }
                found = Some(bit_index);
                break;
            }
            match found {
                None => {
                    break;
                },
                Some(signal_idx) => {
                    let bits = signals.load(leaf_idx, signal_idx);
                    let draw = self.next_u64();
                    let bit_seed = draw & 63;
                    proof {
                        assert(draw & 63 < 64) by (bit_vector);
                    }
                    let bit_candidate = find_nearest(bits, bit_seed);
                    if bit_candidate >= 64 {
                        proof {
                            lemma_clear_below(available, signal_idx as u64, signals_per_leaf as int);
                        }
                        available = available & !(1u64 << (signal_idx as u64));
                        attempts = attempts - 1;
                        continue;
                    }
                    let (remaining, acquired) = signals.try_acquire(leaf_idx, signal_idx, bit_candidate);
                    if !acquired {
                        self.stats.cas_failures = self.stats.cas_failures.saturating_add(1);
                        proof {
                            lemma_clear_below(available, signal_idx as u64, signals_per_leaf as int);
                        }
                        available = available & !(1u64 << (signal_idx as u64));
                        attempts = attempts - 1;
                        continue;
                    }
                    if remaining == 0 {
                        summary.mark_signal_inactive(leaf_idx, signal_idx);
                        let recheck = signals.load(leaf_idx, signal_idx);
                        if recheck != 0 {
                            summary.mark_signal_active(leaf_idx, signal_idx);
                        }
                    }
                    self.stats.signal_polls = self.stats.signal_polls.saturating_add(1);
                    let slot = signal_idx * 64 + bit_candidate as usize;
                    proof {
                        vstd::arithmetic::div_mod::lemma_fundamental_div_mod_converse(
                            slot as int,
                            64,
                            signal_idx as int,
                            bit_candidate as int,
                        );
                        assert(slot_signal(slot as int) == signal_idx as int);
                        assert(slot_bit(slot as int) == bit_candidate);
                        assert(task_taken(s0, t0, leaf_idx as int, slot as int, summary@, signals@));
                        if summary_matches(s0, t0) {
                            lemma_take_keeps_summary_exact(
                                s0,
                                t0,
                                leaf_idx as int,
                                slot as int,
                                summary@,
                                signals@,
                            );
                        }
                    }
                    return Some(slot);
                },
            }
        }
        self.stats.empty_scans = self.stats.empty_scans.saturating_add(1);
        None
    }
    /// Tries the leaves of the worker's partition in order and takes a task from the
    /// first one that gives one. With an exact summary that is the first leaf of the
    /// partition that holds a task, and the summary stays exact.
    pub fn try_partition_linear(&mut self, summary: &mut Summary, signals: &mut TaskSignals) -> (r: Option<
        (usize, usize),
    >)
        requires
            old(summary).wf(),
            old(signals).wf(),
            old(summary)@.leaf_count == old(signals)@.leaf_count,
            old(summary)@.signals_per_leaf == old(signals)@.signals_per_leaf,
            old(self).partition_start + old(self).partition_len <= old(signals)@.leaf_count,
        ensures
            final(summary).wf(),
            final(signals).wf(),
            keeps_timers_and_partition(*old(self), *final(self)),
            scanned(
                old(summary)@,
                old(signals)@,
                old(self).partition_start as int,
                old(self).partition_len as int,
                r,
                final(summary)@,
                final(signals)@,
            ),
            summary_matches(old(summary)@, old(signals)@) ==> summary_matches(final(summary)@, final(signals)@)
                && first_found(old(signals)@, old(self).partition_start as int, old(self).partition_len as int, r),
    {
        let partition_start = self.partition_start;
        let partition_len = self.partition_len;
        let ghost s0 = summary@;
        let ghost t0 = signals@;
        let mut offset: usize = 0;
        while offset < partition_len
            invariant
                summary.wf(),
                signals.wf(),
                summary@ == s0,
                signals@ == t0,
                s0 == old(summary)@,
                t0 == old(signals)@,
                s0.leaf_count == t0.leaf_count,
                s0.signals_per_leaf == t0.signals_per_leaf,
                partition_start == old(self).partition_start,
                partition_len == old(self).partition_len,
                partition_start + partition_len <= t0.leaf_count,
                offset <= partition_len,
                summary_matches(s0, t0) ==> no_task_in(t0, partition_start as int, offset as int),
                keeps_timers_and_partition(*old(self), *self),
            decreases partition_len - offset,
        {
            let leaf_idx = partition_start + offset;
            let got = self.try_acquire_task(summary, signals, leaf_idx);
            if let Some(slot) = got {
                return Some((leaf_idx, slot));
            }
            offset = offset + 1;
        }
        None
    }

    /// Tries up to `partition_len` random leaves of the worker's partition and takes a
    /// task from the first one that gives one. The first leaf tried is the one the
    /// worker's next draw picks (see `draw_index`); with an exact summary a task is
    /// taken from it when it holds one, and nothing is found only when it holds none.
    pub fn try_partition_random(&mut self, summary: &mut Summary, signals: &mut TaskSignals) -> (r: Option<
        (usize, usize),
    >)
        requires
            old(summary).wf(),
            old(signals).wf(),
            old(summary)@.leaf_count == old(signals)@.leaf_count,
            old(summary)@.signals_per_leaf == old(signals)@.signals_per_leaf,
            old(self).partition_start + old(self).partition_len <= old(signals)@.leaf_count,
        ensures
            final(summary).wf(),
            final(signals).wf(),
            keeps_timers_and_partition(*old(self), *final(self)),
            scanned(
                old(summary)@,
                old(signals)@,
                old(self).partition_start as int,
                old(self).partition_len as int,
                r,
                final(summary)@,
                final(signals)@,
            ),
            summary_matches(old(summary)@, old(signals)@) ==> summary_matches(final(summary)@, final(signals)@),
            old(self).partition_len == 1 && summary_matches(old(summary)@, old(signals)@) ==> (r is Some
                <==> leaf_has_task(old(signals)@, old(self).partition_start as int)),
            old(self).partition_len > 0 && summary_matches(old(summary)@, old(signals)@) ==> {
                let first = old(self).partition_start + draw_index(first_draw(old(self).seed), old(self).partition_len);
                &&& leaf_has_task(old(signals)@, first) ==> (r matches Some(found) && found.0 == first)
                &&& r is None ==> !leaf_has_task(old(signals)@, first)
            },
    {
        let partition_start = self.partition_start;
        let partition_len = self.partition_len;
        let ghost s0 = summary@;
        let ghost t0 = signals@;
        let pow2 = is_power_of_two(partition_len);
        let mut i: usize = 0;
        while i < partition_len
            invariant
                summary.wf(),
                signals.wf(),
                summary@ == s0,
                signals@ == t0,
                s0 == old(summary)@,
                t0 == old(signals)@,
                s0.leaf_count == t0.leaf_count,
                s0.signals_per_leaf == t0.signals_per_leaf,
                partition_start == old(self).partition_start,
                partition_len == old(self).partition_len,
                partition_start + partition_len <= t0.leaf_count,
                i <= partition_len,
                partition_len == 1 && summary_matches(s0, t0) && i > 0 ==> !leaf_has_task(
                    t0,
                    partition_start as int,
                ),
                i == 0 ==> self.seed == old(self).seed,
                summary_matches(s0, t0) && i > 0 ==> !leaf_has_task(
                    t0,
                    partition_start + draw_index(first_draw(old(self).seed), partition_len),
                ),
                pow2 == (partition_len != 0 && partition_len & ((partition_len - 1) as usize) == 0),
                keeps_timers_and_partition(*old(self), *self),
            decreases partition_len - i,
        {
            let draw = self.next_u64() as usize;
            let start_offset = if pow2 {
                let mask = partition_len - 1;
                proof {
                    assert(draw & mask <= mask) by (bit_vector);
                    assert(draw & 0usize == 0usize) by (bit_vector);
                }
                draw & mask
            } else {
                draw % partition_len
            };
            proof {
                if partition_len == 1 {
                    assert(1usize & 0usize == 0usize) by (bit_vector);
                }
            }
            let leaf_idx = partition_start + start_offset;
            let got = self.try_acquire_task(summary, signals, leaf_idx);
            if let Some(slot) = got {
                return Some((leaf_idx, slot));
            }
            i = i + 1;
        }
        None
    }

    /// Tries up to `leaf_count` random leaves of the whole arena and takes a task from
    /// the first one that gives one; counts each try as a steal attempt and a task
    /// found as a steal success. The first leaf tried is the one the worker's next
    /// draw picks (see `draw_index`); with an exact summary a task is taken from it
    /// when it holds one, and nothing is found only when it holds none.
    pub fn try_any_partition_random(
        &mut self,
        summary: &mut Summary,
        signals: &mut TaskSignals,
        leaf_count: usize,
    ) -> (r: Option<(usize, usize)>)
        requires
            old(summary).wf(),
            old(signals).wf(),
            old(summary)@.leaf_count == old(signals)@.leaf_count,
            old(summary)@.signals_per_leaf == old(signals)@.signals_per_leaf,
            leaf_count <= old(signals)@.leaf_count,
            old(self).stats.leaf_steal_attempts + leaf_count <= u64::MAX,
            old(self).stats.leaf_steal_successes < u64::MAX,
        ensures
            final(summary).wf(),
            final(signals).wf(),
            keeps_timers_and_partition(*old(self), *final(self)),
            scanned(old(summary)@, old(signals)@, 0, leaf_count as int, r, final(summary)@, final(signals)@),
            summary_matches(old(summary)@, old(signals)@) ==> summary_matches(final(summary)@, final(signals)@),
            old(self).stats.leaf_steal_attempts <= final(self).stats.leaf_steal_attempts
                <= old(self).stats.leaf_steal_attempts + leaf_count,
            r is None ==> final(self).stats.leaf_steal_attempts == old(self).stats.leaf_steal_attempts + leaf_count,
            leaf_count == 1 && summary_matches(old(summary)@, old(signals)@) ==> (r is Some <==> leaf_has_task(
                old(signals)@,
                0,
            )),
            leaf_count > 0 && summary_matches(old(summary)@, old(signals)@) ==> {
                let first = draw_index(first_draw(old(self).seed), leaf_count);
                &&& leaf_has_task(old(signals)@, first as int) ==> (r matches Some(found) && found.0 == first)
                &&& r is None ==> !leaf_has_task(old(signals)@, first as int)
            },
            final(self).stats.leaf_steal_successes == old(self).stats.leaf_steal_successes + if r is Some {
                1int
            } else {
                0int
            },
    {
        let ghost s0 = summary@;
        let ghost t0 = signals@;
        let pow2 = is_power_of_two(leaf_count);
        let mut i: usize = 0;
        while i < leaf_count
            invariant
                summary.wf(),
                signals.wf(),
                summary@ == s0,
                signals@ == t0,
                s0 == old(summary)@,
                t0 == old(signals)@,
                s0.leaf_count == t0.leaf_count,
                s0.signals_per_leaf == t0.signals_per_leaf,
                leaf_count <= t0.leaf_count,
                i <= leaf_count,
                leaf_count == 1 && summary_matches(s0, t0) && i > 0 ==> !leaf_has_task(t0, 0),
                i == 0 ==> self.seed == old(self).seed,
                summary_matches(s0, t0) && i > 0 ==> !leaf_has_task(
                    t0,
                    draw_index(first_draw(old(self).seed), leaf_count) as int,
                ),
                pow2 == (leaf_count != 0 && leaf_count & ((leaf_count - 1) as usize) == 0),
                keeps_timers_and_partition(*old(self), *self),
                self.stats.leaf_steal_attempts == old(self).stats.leaf_steal_attempts + i,
                self.stats.leaf_steal_successes == old(self).stats.leaf_steal_successes,
                old(self).stats.leaf_steal_attempts + leaf_count <= u64::MAX,
                old(self).stats.leaf_steal_successes < u64::MAX,
            decreases leaf_count - i,
        {
            let draw = self.next_u64() as usize;
            let leaf_idx = if pow2 {
                let mask = leaf_count - 1;
                proof {
                    assert(draw & mask <= mask) by (bit_vector);
                    assert(draw & 0usize == 0usize) by (bit_vector);
                }
                draw & mask
            } else {
                draw % leaf_count
            };
            proof {
                if leaf_count == 1 {
                    assert(1usize & 0usize == 0usize) by (bit_vector);
                }
            }
            self.stats.leaf_steal_attempts = self.stats.leaf_steal_attempts + 1;
            let got = self.try_acquire_task(summary, signals, leaf_idx);
            if let Some(slot) = got {
                self.stats.leaf_steal_successes = self.stats.leaf_steal_successes + 1;
                return Some((leaf_idx, slot));
            }
            i = i + 1;
        }
        None
    }

    /// Tries the leaves `0..leaf_count` in order and takes a task from the first one that
    /// gives one; counts each try as a steal attempt and a task found as a steal success.
    /// With an exact summary that is the first leaf that holds a task, and the summary
    /// stays exact.
    pub fn try_any_partition_linear(
        &mut self,
        summary: &mut Summary,
        signals: &mut TaskSignals,
        leaf_count: usize,
    ) -> (r: Option<(usize, usize)>)
        requires
            old(summary).wf(),
            old(signals).wf(),
            old(summary)@.leaf_count == old(signals)@.leaf_count,
            old(summary)@.signals_per_leaf == old(signals)@.signals_per_leaf,
            leaf_count <= old(signals)@.leaf_count,
            old(self).stats.leaf_steal_attempts + leaf_count <= u64::MAX,
            old(self).stats.leaf_steal_successes < u64::MAX,
        ensures
            final(summary).wf(),
            final(signals).wf(),
            keeps_timers_and_partition(*old(self), *final(self)),
            scanned(old(summary)@, old(signals)@, 0, leaf_count as int, r, final(summary)@, final(signals)@),
            summary_matches(old(summary)@, old(signals)@) ==> summary_matches(final(summary)@, final(signals)@)
                && first_found(old(signals)@, 0, leaf_count as int, r),
            final(self).stats.leaf_steal_attempts == old(self).stats.leaf_steal_attempts + match r {
                Some(found) => found.0 + 1,
                None => leaf_count as int,
            },
            final(self).stats.leaf_steal_successes == old(self).stats.leaf_steal_successes + if r is Some {
                1int
            } else {
                0int
            },
    {
        let ghost s0 = summary@;
        let ghost t0 = signals@;
        let mut leaf_idx: usize = 0;
        while leaf_idx < leaf_count
            invariant
                summary.wf(),
                signals.wf(),
                summary@ == s0,
                signals@ == t0,
                s0 == old(summary)@,
                t0 == old(signals)@,
                s0.leaf_count == t0.leaf_count,
                s0.signals_per_leaf == t0.signals_per_leaf,
                leaf_count <= t0.leaf_count,
                leaf_idx <= leaf_count,
                summary_matches(s0, t0) ==> no_task_in(t0, 0, leaf_idx as int),
                keeps_timers_and_partition(*old(self), *self),
                self.stats.leaf_steal_attempts == old(self).stats.leaf_steal_attempts + leaf_idx,
                self.stats.leaf_steal_successes == old(self).stats.leaf_steal_successes,
                old(self).stats.leaf_steal_attempts + leaf_count <= u64::MAX,
                old(self).stats.leaf_steal_successes < u64::MAX,
            decreases leaf_count - leaf_idx,
        {
            self.stats.leaf_steal_attempts = self.stats.leaf_steal_attempts + 1;
            let got = self.try_acquire_task(summary, signals, leaf_idx);
            if let Some(slot) = got {
                self.stats.leaf_steal_successes = self.stats.leaf_steal_successes + 1;
                return Some((leaf_idx, slot));
            }
            leaf_idx = leaf_idx + 1;
        }
        None
    }
    /// One probe of a worker's run pass: the worker's block is the
    /// `leaf_count / worker_count` leaves starting at `worker_id` blocks in; the probe
    /// takes the leaf the worker's next random draw picks in it (the draw modulo the
    /// block's length) and tries to take a task from that leaf, so with an exact
    /// summary a task is found exactly when that leaf holds one.
    pub fn probe_partition_leaf(&mut self, summary: &mut Summary, signals: &mut TaskSignals, worker_count: usize) -> (r:
        Option<(usize, usize)>)
        requires
            old(summary).wf(),
            old(signals).wf(),
            old(summary)@.leaf_count == old(signals)@.leaf_count,
            old(summary)@.signals_per_leaf == old(signals)@.signals_per_leaf,
            worker_count > 0,
            old(signals)@.leaf_count / worker_count > 0,
            old(self).worker_id < worker_count,
        ensures
            final(summary).wf(),
            final(signals).wf(),
            keeps_timers_and_partition(*old(self), *final(self)),
            scanned(
                old(summary)@,
                old(signals)@,
                old(self).worker_id * (old(signals)@.leaf_count / worker_count) as int,
                (old(signals)@.leaf_count / worker_count) as int,
                r,
                final(summary)@,
                final(signals)@,
            ),
            summary_matches(old(summary)@, old(signals)@) ==> summary_matches(final(summary)@, final(signals)@),
            old(signals)@.leaf_count / worker_count == 1 && summary_matches(old(summary)@, old(signals)@) ==> (r is Some
                <==> leaf_has_task(old(signals)@, old(self).worker_id as int)),
            ({
                let len = old(signals)@.leaf_count / worker_count;
                let leaf = old(self).worker_id * len + first_draw(old(self).seed) % len;
                &&& r matches Some(found) ==> found.0 == leaf
                &&& summary_matches(old(summary)@, old(signals)@) ==> (r is Some <==> leaf_has_task(old(signals)@, leaf))
            }),
    {
        let leaf_count = signals.leaf_count();
        let partition_len = leaf_count / worker_count;
        let worker_index = self.worker_id as usize;
        proof {
            assert(worker_index * partition_len + partition_len <= leaf_count) by (nonlinear_arith)
                requires
                    worker_index < worker_count,
                    partition_len == leaf_count / worker_count,
                    worker_count > 0,
            {
                assert(partition_len * worker_count <= leaf_count);
                assert(worker_index * partition_len + partition_len == (worker_index + 1) * partition_len);
                assert((worker_index + 1) * partition_len <= worker_count * partition_len);
            }
        }
        let partition_start = worker_index * partition_len;
        let next_idx = self.next_u64() as usize;
        let leaf_idx = partition_start + next_idx % partition_len;
        match self.try_acquire_task(summary, signals, leaf_idx) {
            Some(slot) => Some((leaf_idx, slot)),
            None => None,
        }
    }
    /// Settles task slot `slot_idx` of leaf `leaf_idx` after its poll gave `result`:
    /// a pinned generator is recorded in `run_ctx`; a completed task counts as
    /// completed (saturating when the future finished, by one when it was gone) and
    /// its future is to be dropped; a pending task that yielded counts as yielded and
    /// is scheduled again at once, one that did not counts as waiting. Returns whether
    /// the future is to be dropped.
    pub fn settle_poll(
        &mut self,
        summary: &mut Summary,
        signals: &mut TaskSignals,
        leaf_idx: usize,
        slot_idx: usize,
        result: PollResult,
        yielded: bool,
        pinned: bool,
        run_ctx: &mut RunContext,
    ) -> (r: bool)
        requires
            old(summary).wf(),
            old(signals).wf(),
            old(summary)@.leaf_count == old(signals)@.leaf_count,
            old(summary)@.signals_per_leaf == old(signals)@.signals_per_leaf,
            leaf_idx < old(signals)@.leaf_count,
            slot_idx < old(signals)@.signals_per_leaf * 64,
            result == PollResult::Gone ==> old(self).stats.completed_count < u64::MAX,
            result == PollResult::Pending && yielded ==> old(self).stats.yielded_count < u64::MAX,
            result == PollResult::Pending && !yielded ==> old(self).stats.waiting_count < u64::MAX,
        ensures
            final(summary).wf(),
            final(signals).wf(),
            keeps_timers_and_partition(*old(self), *final(self)),
            final(self).seed == old(self).seed,
            final(run_ctx).pinned == (old(run_ctx).pinned || pinned),
            r == (result == PollResult::Ready),
            result == PollResult::Pending && yielded ==> {
                &&& final(signals)@ == bit_scheduled(
                    old(signals)@,
                    leaf_idx as int,
                    slot_signal(slot_idx as int),
                    slot_bit(slot_idx as int),
                )
                &&& final(summary)@ == if signal_word(old(signals)@, leaf_idx as int, slot_signal(slot_idx as int))
                    == 0 {
                    signal_activated(old(summary)@, leaf_idx as int, slot_signal(slot_idx as int) as usize)
                } else {
                    old(summary)@
                }
                &&& final(self).stats == (WorkerStats {
                    yielded_count: (old(self).stats.yielded_count + 1) as u64,
                    ..old(self).stats
                })
            },
            !(result == PollResult::Pending && yielded) ==> final(summary)@ == old(summary)@ && final(signals)@
                == old(signals)@,
            result == PollResult::Pending && !yielded ==> final(self).stats == (WorkerStats {
                waiting_count: (old(self).stats.waiting_count + 1) as u64,
                ..old(self).stats
            }),
            result == PollResult::Ready ==> final(self).stats == (WorkerStats {
                completed_count: if old(self).stats.completed_count == u64::MAX {
                    u64::MAX
                } else {
                    (old(self).stats.completed_count + 1) as u64
                },
                ..old(self).stats
            }),
            result == PollResult::Gone ==> final(self).stats == (WorkerStats {
                completed_count: (old(self).stats.completed_count + 1) as u64,
                ..old(self).stats
            }),
            summary_matches(old(summary)@, old(signals)@) ==> summary_matches(final(summary)@, final(signals)@),
    {
        if pinned {
            run_ctx.mark_pinned();
        }
        match result {
            PollResult::Ready => {
                self.stats.completed_count = self.stats.completed_count.saturating_add(1);
                true
            },
            PollResult::Pending => {
                if yielded {
                    self.stats.yielded_count = self.stats.yielded_count + 1;
                    signals.schedule(summary, leaf_idx, slot_idx);
                } else {
                    self.stats.waiting_count = self.stats.waiting_count + 1;
                }
                false
            },
            PollResult::Gone => {
                self.stats.completed_count = self.stats.completed_count + 1;
                false
            },
        }
    }
    /// Settles task slot `slot_idx` of leaf `leaf_idx` after its pinned generator was
    /// resumed: the task counts as polled; a generator that reports the task done
    /// (status 1 or 2) or that ran to its end completes the task, whose future is to be
    /// dropped; a missing generator completes it too, with nothing to drop; any other
    /// status leaves the task pending, settled as after a poll (see `settle_poll`).
    /// Returns whether the future is to be dropped.
    pub fn settle_pinned(
        &mut self,
        summary: &mut Summary,
        signals: &mut TaskSignals,
        leaf_idx: usize,
        slot_idx: usize,
        outcome: GeneratorOutcome,
        yielded: bool,
    ) -> (r: bool)
        requires
            old(summary).wf(),
            old(signals).wf(),
            old(summary)@.leaf_count == old(signals)@.leaf_count,
            old(summary)@.signals_per_leaf == old(signals)@.signals_per_leaf,
            leaf_idx < old(signals)@.leaf_count,
            slot_idx < old(signals)@.signals_per_leaf * 64,
            old(self).stats.tasks_polled < u64::MAX,
            outcome matches GeneratorOutcome::Yielded(st) && st != 1 && st != 2 ==> (yielded
                ==> old(self).stats.yielded_count < u64::MAX) && (!yielded ==> old(self).stats.waiting_count
                < u64::MAX),
        ensures
            final(summary).wf(),
            final(signals).wf(),
            keeps_timers_and_partition(*old(self), *final(self)),
            final(self).seed == old(self).seed,
            final(self).stats.tasks_polled == old(self).stats.tasks_polled + 1,
            ({
                let pending = outcome matches GeneratorOutcome::Yielded(st) && st != 1 && st != 2;
                let completed = WorkerStats {
                    tasks_polled: (old(self).stats.tasks_polled + 1) as u64,
                    completed_count: if old(self).stats.completed_count == u64::MAX {
                        u64::MAX
                    } else {
                        (old(self).stats.completed_count + 1) as u64
                    },
                    ..old(self).stats
                };
                &&& r == (!pending && outcome != GeneratorOutcome::Missing)
                &&& !pending ==> final(self).stats == completed && final(summary)@ == old(summary)@
                    && final(signals)@ == old(signals)@
                &&& pending && yielded ==> {
                    &&& final(signals)@ == bit_scheduled(
                        old(signals)@,
                        leaf_idx as int,
                        slot_signal(slot_idx as int),
                        slot_bit(slot_idx as int),
                    )
                    &&& final(summary)@ == if signal_word(old(signals)@, leaf_idx as int, slot_signal(slot_idx as int))
                        == 0 {
                        signal_activated(old(summary)@, leaf_idx as int, slot_signal(slot_idx as int) as usize)
                    } else {
                        old(summary)@
                    }
                    &&& final(self).stats == (WorkerStats {
                        tasks_polled: (old(self).stats.tasks_polled + 1) as u64,
                        yielded_count: (old(self).stats.yielded_count + 1) as u64,
                        ..old(self).stats
                    })
                }
                &&& pending && !yielded ==> final(summary)@ == old(summary)@ && final(signals)@ == old(signals)@
                    && final(self).stats == (WorkerStats {
                    tasks_polled: (old(self).stats.tasks_polled + 1) as u64,
                    waiting_count: (old(self).stats.waiting_count + 1) as u64,
                    ..old(self).stats
                })
            }),
            summary_matches(old(summary)@, old(signals)@) ==> summary_matches(final(summary)@, final(signals)@),
    {
        self.stats.tasks_polled = self.stats.tasks_polled + 1;
        match outcome {
            GeneratorOutcome::Yielded(status) => {
                if status == 1 || status == 2 {
                    self.stats.completed_count = self.stats.completed_count.saturating_add(1);
                    true
                } else {
                    if yielded {
                        self.stats.yielded_count = self.stats.yielded_count + 1;
                        signals.schedule(summary, leaf_idx, slot_idx);
                    } else {
                        self.stats.waiting_count = self.stats.waiting_count + 1;
                    }
                    false
                }
            },
            GeneratorOutcome::Finished => {
                self.stats.completed_count = self.stats.completed_count.saturating_add(1);
                true
            },
            GeneratorOutcome::Missing => {
                self.stats.completed_count = self.stats.completed_count.saturating_add(1);
                false
            },
        }
    }
}

} // verus!
