use vstd::prelude::*;

use crate::bits::{bit_set, lemma_bit_and, lemma_bit_not, lemma_bit_or, lemma_bit_single};
use crate::summary::{signal_activated, signal_deactivated, Summary, SummaryState};

verus! {

/// The task signal words of a task arena. Leaf `l` has `signals_per_leaf` words; bit
/// `b` of word `s` says that task slot `s * 64 + b` of the leaf is scheduled.
pub struct TaskSignals {
    leaf_count: usize,
    signals_per_leaf: usize,
    words: Vec<u64>,
}

/// The abstract state of the task signals.
pub struct TaskSignalsState {
    pub leaf_count: usize,
    pub signals_per_leaf: usize,
    pub words: Seq<u64>,
}

/// Position of the word of (`leaf`, `signal`).
pub open spec fn word_index(t: TaskSignalsState, leaf: int, signal: int) -> int {
    leaf * t.signals_per_leaf + signal
}

/// The word of (`leaf`, `signal`).
pub open spec fn signal_word(t: TaskSignalsState, leaf: int, signal: int) -> u64 {
    t.words[word_index(t, leaf, signal)]
}

/// `t` with bit `bit` of the word of (`leaf`, `signal`) set.
pub open spec fn bit_scheduled(t: TaskSignalsState, leaf: int, signal: int, bit: u64) -> TaskSignalsState {
    TaskSignalsState {
        words: t.words.update(word_index(t, leaf, signal), signal_word(t, leaf, signal) | (1u64 << bit)),
        ..t
    }
}

/// `t` with bit `bit` of the word of (`leaf`, `signal`) cleared.
pub open spec fn bit_taken(t: TaskSignalsState, leaf: int, signal: int, bit: u64) -> TaskSignalsState {
    TaskSignalsState {
        words: t.words.update(word_index(t, leaf, signal), signal_word(t, leaf, signal) & !(1u64 << bit)),
        ..t
    }
}

/// Whether the summary `s` and the signals `t` describe the same arena: same leaves,
/// same signals per leaf, and words of the right count.
pub open spec fn shaped(s: SummaryState, t: TaskSignalsState) -> bool {
    &&& t.leaf_count > 0
    &&& 0 < t.signals_per_leaf <= 64
    &&& t.words.len() == t.leaf_count * t.signals_per_leaf
    &&& s.leaf_count == t.leaf_count
    &&& s.signals_per_leaf == t.signals_per_leaf
    &&& s.leaf_words.len() == s.leaf_count
}

/// Whether the summary shows exactly the signals that hold a scheduled task: the bit of
/// signal `g` in the word of leaf `l` is set when, and only when, that signal's word is
/// not zero.
pub open spec fn summary_matches(s: SummaryState, t: TaskSignalsState) -> bool {
    forall|l: int, g: int|
        #![trigger signal_word(t, l, g)]
        #![trigger bit_set(s.leaf_words[l], g as u64)]
        0 <= l < t.leaf_count && 0 <= g < t.signals_per_leaf ==> (bit_set(s.leaf_words[l], g as u64)
            <==> signal_word(t, l, g) != 0)
}

/// Whether some task of leaf `leaf` is scheduled.
pub open spec fn leaf_has_task(t: TaskSignalsState, leaf: int) -> bool {
    exists|g: int| 0 <= g < t.signals_per_leaf && #[trigger] signal_word(t, leaf, g) != 0
}

/// Signal of task slot `slot`.
pub open spec fn slot_signal(slot: int) -> int {
    slot / 64
}

/// Bit of task slot `slot` in its signal word.
pub open spec fn slot_bit(slot: int) -> u64 {
    (slot % 64) as u64
}

/// Whether task slot `slot` of `leaf` was taken: it was scheduled in `t`, its bit is
/// cleared in `ft`, and the summary bit of its signal is cleared when the signal became
/// empty (`fs`), and kept otherwise.
pub open spec fn task_taken(
    s: SummaryState,
    t: TaskSignalsState,
    leaf: int,
    slot: int,
    fs: SummaryState,
    ft: TaskSignalsState,
) -> bool {
    let signal = slot_signal(slot);
    let bit = slot_bit(slot);
    &&& 0 <= slot
    &&& 0 <= signal < t.signals_per_leaf
    &&& bit_set(signal_word(t, leaf, signal), bit)
    &&& ft == bit_taken(t, leaf, signal, bit)
    &&& fs == if signal_word(ft, leaf, signal) == 0 {
        signal_deactivated(s, leaf, signal as usize)
    } else {
        s
    }
}

impl View for TaskSignals {
    type V = TaskSignalsState;

    closed spec fn view(&self) -> TaskSignalsState {
        TaskSignalsState {
            leaf_count: self.leaf_count,
            signals_per_leaf: self.signals_per_leaf,
            words: self.words@,
        }
    }
}

proof fn lemma_index_bound(leaf: int, sig: int, lc: int, spl: int)
    requires
        0 <= leaf < lc,
        0 <= sig < spl,
    ensures
        0 <= leaf * spl <= leaf * spl + sig < lc * spl,
{
    assert(0 <= leaf * spl <= leaf * spl + sig < lc * spl) by (nonlinear_arith)
        requires
            0 <= leaf < lc,
            0 <= sig < spl,
    ;
}

/// Two (leaf, signal) pairs share a word only when they are the same pair.
proof fn lemma_index_unique(l1: int, g1: int, l2: int, g2: int, spl: int)
    requires
        0 <= l1,
        0 <= l2,
        0 <= g1 < spl,
        0 <= g2 < spl,
        l1 * spl + g1 == l2 * spl + g2,
    ensures
        l1 == l2,
        g1 == g2,
{
    if l1 < l2 {
        assert(l1 * spl + spl <= l2 * spl) by (nonlinear_arith)
            requires
                l1 < l2,
                spl > 0,
        ;
    } else if l2 < l1 {
        assert(l2 * spl + spl <= l1 * spl) by (nonlinear_arith)
            requires
                l2 < l1,
                spl > 0,
        ;
    }
}

/// The bit of signal `g` in a leaf word is untouched when the bit of another signal
/// `k` is set or cleared.
proof fn lemma_other_bit(w: u64, k: u64, g: u64)
    requires
        k < 64,
        g < 64,
        k != g,
    ensures
        bit_set(w | (1u64 << k), g) == bit_set(w, g),
        bit_set(w & !(1u64 << k), g) == bit_set(w, g),
{
    lemma_bit_or(w, 1u64 << k, g);
    lemma_bit_and(w, !(1u64 << k), g);
    lemma_bit_not(1u64 << k, g);
    lemma_bit_single(k, g);
}

/// Setting bit `k` sets it; clearing it clears it.
proof fn lemma_own_bit(w: u64, k: u64)
    requires
        k < 64,
    ensures
        bit_set(w | (1u64 << k), k),
        !bit_set(w & !(1u64 << k), k),
        w & !(1u64 << k) != 0 ==> w != 0,
{
    lemma_bit_or(w, 1u64 << k, k);
    lemma_bit_and(w, !(1u64 << k), k);
    lemma_bit_not(1u64 << k, k);
    lemma_bit_single(k, k);
    assert(w & !(1u64 << k) != 0 ==> w != 0) by (bit_vector);
}

/// A word with bit `k` set is not zero.
proof fn lemma_set_bit_nonzero(w: u64, k: u64)
    requires
        k < 64,
    ensures
        w | (1u64 << k) != 0,
{
    assert(w | (1u64 << k) != 0) by (bit_vector)
        requires
            k < 64,
    ;
}

/// Scheduling a task keeps an exact summary exact: after the word of the task's signal
/// gains the task's bit, and the summary bit of that signal is set when the word was
/// empty, the summary again shows exactly the signals that hold a task.
pub proof fn lemma_schedule_keeps_summary_exact(
    s: SummaryState,
    t: TaskSignalsState,
    leaf: int,
    signal: int,
    bit: u64,
)
    requires
        shaped(s, t),
        summary_matches(s, t),
        0 <= leaf < t.leaf_count,
        0 <= signal < t.signals_per_leaf,
        bit < 64,
    ensures
        summary_matches(
            if signal_word(t, leaf, signal) == 0 {
                signal_activated(s, leaf, signal as usize)
            } else {
                s
            },
            bit_scheduled(t, leaf, signal, bit),
        ),
{
    let fs = if signal_word(t, leaf, signal) == 0 {
        signal_activated(s, leaf, signal as usize)
    } else {
        s
    };
    let ft = bit_scheduled(t, leaf, signal, bit);
    let spl = t.signals_per_leaf as int;
    lemma_index_bound(leaf, signal, t.leaf_count as int, spl);
    assert forall|l: int, g: int| 0 <= l < ft.leaf_count && 0 <= g < ft.signals_per_leaf implies (bit_set(
        fs.leaf_words[l],
        g as u64,
    ) <==> signal_word(ft, l, g) != 0) by {
        lemma_index_bound(l, g, t.leaf_count as int, spl);
        assert(bit_set(s.leaf_words[l], g as u64) <==> signal_word(t, l, g) != 0);
        if l == leaf && g == signal {
            lemma_set_bit_nonzero(signal_word(t, leaf, signal), bit);
            lemma_own_bit(s.leaf_words[leaf], signal as u64);
        } else {
            if word_index(t, l, g) == word_index(t, leaf, signal) {
                lemma_index_unique(l, g, leaf, signal, spl);
            }
            if l == leaf && signal_word(t, leaf, signal) == 0 {
                lemma_other_bit(s.leaf_words[leaf], signal as u64, g as u64);
            }
        }
    }
}

/// Taking a task keeps an exact summary exact: after the task's bit leaves its signal
/// word, and the summary bit of the signal is cleared when the word became empty, the
/// summary again shows exactly the signals that hold a task.
pub proof fn lemma_take_keeps_summary_exact(
    s: SummaryState,
    t: TaskSignalsState,
    leaf: int,
    slot: int,
    fs: SummaryState,
    ft: TaskSignalsState,
)
    requires
        shaped(s, t),
        summary_matches(s, t),
        0 <= leaf < t.leaf_count,
        task_taken(s, t, leaf, slot, fs, ft),
    ensures
        summary_matches(fs, ft),
{
    let signal = slot_signal(slot);
    let bit = slot_bit(slot);
    let spl = t.signals_per_leaf as int;
    lemma_index_bound(leaf, signal, t.leaf_count as int, spl);
    assert forall|l: int, g: int| 0 <= l < ft.leaf_count && 0 <= g < ft.signals_per_leaf implies (bit_set(
        fs.leaf_words[l],
        g as u64,
    ) <==> signal_word(ft, l, g) != 0) by {
        lemma_index_bound(l, g, t.leaf_count as int, spl);
        assert(bit_set(s.leaf_words[l], g as u64) <==> signal_word(t, l, g) != 0);
        if l == leaf && g == signal {
            lemma_own_bit(s.leaf_words[leaf], signal as u64);
            lemma_own_bit(signal_word(t, leaf, signal), bit);
        } else {
            if word_index(t, l, g) == word_index(t, leaf, signal) {
                lemma_index_unique(l, g, leaf, signal, spl);
            }
            if l == leaf && signal_word(ft, leaf, signal) == 0 {
                lemma_other_bit(s.leaf_words[leaf], signal as u64, g as u64);
            }
        }
    }
}

/// A task scheduled into a leaf that holds no task is the task taken from it next, and
/// taking it leaves the signals as they were before it was scheduled.
pub proof fn lemma_take_undoes_schedule(
    t: TaskSignalsState,
    leaf: int,
    slot: int,
    s1: SummaryState,
    taken: int,
    s2: SummaryState,
    t2: TaskSignalsState,
)
    requires
        t.leaf_count > 0,
        0 < t.signals_per_leaf <= 64,
        t.words.len() == t.leaf_count * t.signals_per_leaf,
        0 <= leaf < t.leaf_count,
        0 <= slot < t.signals_per_leaf * 64,
        !leaf_has_task(t, leaf),
        task_taken(s1, bit_scheduled(t, leaf, slot_signal(slot), slot_bit(slot)), leaf, taken, s2, t2),
    ensures
        taken == slot,
        t2 == t,
{
    let spl = t.signals_per_leaf as int;
    let sig = slot_signal(slot);
    let bit = slot_bit(slot);
    let t1 = bit_scheduled(t, leaf, sig, bit);
    let sig2 = slot_signal(taken);
    let bit2 = slot_bit(taken);
    assert(0 <= sig < spl) by (nonlinear_arith)
        requires
            0 <= slot < spl * 64,
            sig == slot / 64,
    ;
    assert(bit < 64);
    lemma_index_bound(leaf, sig, t.leaf_count as int, spl);
    lemma_index_bound(leaf, sig2, t.leaf_count as int, spl);
    assert(signal_word(t, leaf, sig) == 0);
    assert(signal_word(t, leaf, sig2) == 0);
    if sig2 != sig {
        if word_index(t, leaf, sig2) == word_index(t, leaf, sig) {
            lemma_index_unique(leaf, sig2, leaf, sig, spl);
        }
        assert(signal_word(t1, leaf, sig2) == 0u64);
        assert(!bit_set(0u64, bit2)) by (bit_vector);
    }
    assert(sig2 == sig);
    assert(signal_word(t1, leaf, sig) == (0u64 | (1u64 << bit)));
    assert((0u64 | (1u64 << bit)) == (1u64 << bit)) by (bit_vector);
    lemma_bit_single(bit, bit2);
    assert(bit2 == bit);
    assert(taken == sig2 * 64 + bit2 as int);
    assert(slot == sig * 64 + bit as int);
    assert(((1u64 << bit) & !(1u64 << bit)) == 0u64) by (bit_vector);
    assert(t2.words =~= t.words);
}

impl TaskSignals {
    /// The signals' internal consistency.
    pub closed spec fn wf(&self) -> bool {
        &&& self.leaf_count > 0
        &&& 0 < self.signals_per_leaf <= 64
        &&& self.words@.len() == self.leaf_count * self.signals_per_leaf
    }

    /// The shape that well-formed signals have.
    pub proof fn lemma_wf_shape(&self)
        requires
            self.wf(),
        ensures
            self@.leaf_count > 0,
            0 < self@.signals_per_leaf <= 64,
            self@.words.len() == self@.leaf_count * self@.signals_per_leaf,
    {
    }

    /// Signals for `leaf_count` leaves of `signals_per_leaf` words each, with no task
    /// scheduled.
    pub fn new(leaf_count: usize, signals_per_leaf: usize) -> (r: Self)
        requires
            leaf_count > 0,
            0 < signals_per_leaf <= 64,
            leaf_count * signals_per_leaf <= usize::MAX,
        ensures
            r.wf(),
            r@.leaf_count == leaf_count,
            r@.signals_per_leaf == signals_per_leaf,
            r@.words == Seq::new((leaf_count * signals_per_leaf) as nat, |i: int| 0u64),
    {
        let n = leaf_count * signals_per_leaf;
        let mut words: Vec<u64> = Vec::with_capacity(n);
        let mut i: usize = 0;
        while i < n
            invariant
                i <= n,
                words@ == Seq::new(i as nat, |k: int| 0u64),
            decreases n - i,
        {
            words.push(0);
            i = i + 1;
        }
        TaskSignals { leaf_count, signals_per_leaf, words }
    }

    /// Number of leaves.
    pub fn leaf_count(&self) -> (r: usize)
        ensures
            r == self@.leaf_count,
    {
        self.leaf_count
    }

    /// Number of signal words per leaf.
    pub fn signals_per_leaf(&self) -> (r: usize)
        ensures
            r == self@.signals_per_leaf,
    {
        self.signals_per_leaf
    }

    fn index(&self, leaf_idx: usize, signal_idx: usize) -> (r: usize)
        requires
            self.wf(),
            leaf_idx < self@.leaf_count,
            signal_idx < self@.signals_per_leaf,
        ensures
            r == word_index(self@, leaf_idx as int, signal_idx as int),
            r < self@.words.len(),
    {
        let n = self.words.len();
        proof {
            lemma_index_bound(
                leaf_idx as int,
                signal_idx as int,
                self.leaf_count as int,
                self.signals_per_leaf as int,
            );
        }
        leaf_idx * self.signals_per_leaf + signal_idx
    }

    /// The word of (`leaf_idx`, `signal_idx`).
    pub fn load(&self, leaf_idx: usize, signal_idx: usize) -> (r: u64)
        requires
            self.wf(),
            leaf_idx < self@.leaf_count,
            signal_idx < self@.signals_per_leaf,
        ensures
            r == signal_word(self@, leaf_idx as int, signal_idx as int),
    {
        let i = self.index(leaf_idx, signal_idx);
        self.words[i]
    }

    /// Sets bit `bit` of the word of (`leaf_idx`, `signal_idx`); returns whether the word
    /// was zero before.
    pub fn set(&mut self, leaf_idx: usize, signal_idx: usize, bit: u64) -> (was_empty: bool)
        requires
            old(self).wf(),
            leaf_idx < old(self)@.leaf_count,
            signal_idx < old(self)@.signals_per_leaf,
            bit < 64,
        ensures
            final(self).wf(),
            final(self)@ == bit_scheduled(old(self)@, leaf_idx as int, signal_idx as int, bit),
            was_empty == (signal_word(old(self)@, leaf_idx as int, signal_idx as int) == 0),
    {
        let i = self.index(leaf_idx, signal_idx);
        let prev = self.words[i];
        self.words.set(i, prev | (1u64 << bit));
        prev == 0
    }

    /// Clears bit `bit` of the word of (`leaf_idx`, `signal_idx`) when it is set. Returns
    /// the word left and whether the bit was taken; a clear bit changes nothing and gives
    /// back the word as it is.
    pub fn try_acquire(&mut self, leaf_idx: usize, signal_idx: usize, bit: u64) -> (r: (u64, bool))
        requires
            old(self).wf(),
            leaf_idx < old(self)@.leaf_count,
            signal_idx < old(self)@.signals_per_leaf,
            bit < 64,
        ensures
            final(self).wf(),
            r.1 == bit_set(signal_word(old(self)@, leaf_idx as int, signal_idx as int), bit),
            r.1 ==> final(self)@ == bit_taken(old(self)@, leaf_idx as int, signal_idx as int, bit)
                && r.0 == signal_word(final(self)@, leaf_idx as int, signal_idx as int),
            !r.1 ==> final(self)@ == old(self)@ && r.0 == signal_word(
                old(self)@,
                leaf_idx as int,
                signal_idx as int,
            ),
    {
        let i = self.index(leaf_idx, signal_idx);
        let prev = self.words[i];
        if (prev >> bit) & 1 == 1 {
            let remaining = prev & !(1u64 << bit);
            self.words.set(i, remaining);
            (remaining, true)
        } else {
            (prev, false)
        }
    }

    /// Schedules task slot `slot_idx` of leaf `leaf_idx`: sets its bit, and when its
    /// signal word was empty marks the signal active in the summary. Returns whether the
    /// word was empty.
    pub fn schedule(&mut self, summary: &mut Summary, leaf_idx: usize, slot_idx: usize) -> (was_empty: bool)
        requires
            old(self).wf(),
            old(summary).wf(),
            old(summary)@.leaf_count == old(self)@.leaf_count,
            old(summary)@.signals_per_leaf == old(self)@.signals_per_leaf,
            leaf_idx < old(self)@.leaf_count,
            slot_idx < old(self)@.signals_per_leaf * 64,
        ensures
            final(self).wf(),
            final(summary).wf(),
            final(self)@ == bit_scheduled(
                old(self)@,
                leaf_idx as int,
                slot_signal(slot_idx as int),
                slot_bit(slot_idx as int),
            ),
            was_empty == (signal_word(old(self)@, leaf_idx as int, slot_signal(slot_idx as int)) == 0),
            final(summary)@ == if was_empty {
                signal_activated(old(summary)@, leaf_idx as int, slot_signal(slot_idx as int) as usize)
            } else {
                old(summary)@
            },
            summary_matches(old(summary)@, old(self)@) ==> summary_matches(final(summary)@, final(self)@),
    {
        let signal_idx = slot_idx / 64;
        let bit = (slot_idx % 64) as u64;
        let was_empty = self.set(leaf_idx, signal_idx, bit);
        if was_empty {
            summary.mark_signal_active(leaf_idx, signal_idx);
        }
        proof {
            old(summary).lemma_wf_shape();
            old(self).lemma_wf_shape();
            if summary_matches(old(summary)@, old(self)@) {
                lemma_schedule_keeps_summary_exact(
                    old(summary)@,
                    old(self)@,
                    leaf_idx as int,
                    signal_idx as int,
                    bit,
                );
            }
        }
        was_empty
    }
}

} // verus!
