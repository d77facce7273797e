use vstd::prelude::*;

use crate::bits::{
    bit_set, lemma_bit_and, lemma_bit_low_mask, lemma_bit_max, lemma_bit_not, lemma_bit_or,
    lemma_bit_single, lemma_bits_ext, lemma_clear_lowest, lemma_lowest_bit,
};
use crate::partition::{
    lemma_mod_wrap, lemma_owner_in_partition, lemma_split, lemma_start_bounds, part_base, part_end, part_extra,
    part_len, part_owner, part_start,
};
use crate::rng::random_seed;
use crate::waker::{leaf_cleared, leaf_marked_active, WakerState, WorkerWaker};

verus! {

/// Number of task slots tracked by one reservation word.
pub const TASK_SLOTS_PER_SIGNAL: usize = 64;

/// Task-signal summary used for work stealing.
///
/// Leaf `l` has a summary word whose bit `s` says that task signal `s` of the leaf has
/// pending tasks; each (leaf, signal) pair has a reservation word of 64 task slots.
/// Leaves are partitioned over the workers; the partition owner's waker is told when a
/// leaf of its partition becomes active or empty.
pub struct Summary {
    leaf_words: Vec<u64>,
    task_reservations: Vec<u64>,
    leaf_count: usize,
    signals_per_leaf: usize,
    leaf_summary_mask: u64,
    next_partition: usize,
    wakers: Vec<WorkerWaker>,
    worker_count: usize,
}

/// The abstract state of a summary.
pub struct SummaryState {
    pub leaf_words: Seq<u64>,
    pub reservations: Seq<u64>,
    pub leaf_count: usize,
    pub signals_per_leaf: usize,
    pub next_partition: usize,
    pub wakers: Seq<WakerState>,
    pub worker_count: usize,
}

/// Mask of the valid signal bits of a leaf word.
pub open spec fn signal_mask(signals_per_leaf: usize) -> u64 {
    if signals_per_leaf >= 64 {
        u64::MAX
    } else {
        ((1u64 << signals_per_leaf) - 1) as u64
    }
}

/// Index of the reservation word of (`leaf`, `signal`).
pub open spec fn res_index(s: SummaryState, leaf: int, signal: int) -> int {
    leaf * s.signals_per_leaf + signal
}

/// Whether every task slot of every signal of `leaf` is reserved.
pub open spec fn leaf_full(s: SummaryState, leaf: int) -> bool {
    forall|sig: int|
        0 <= sig < s.signals_per_leaf ==> #[trigger] s.reservations[res_index(s, leaf, sig)]
            == u64::MAX
}

/// Whether a worker count admits notifications: the partition of each worker then has
/// at most 64 leaves, the width of a waker's partition summary.
pub open spec fn notify_fits(leaf_count: usize, worker_count: usize, wakers_len: int) -> bool {
    worker_count == 0 || worker_count > wakers_len || leaf_count / worker_count < 64
}

/// The wakers after the owner of `leaf` is told that the leaf became active (`active`)
/// or empty (`!active`).
pub open spec fn notified(s: SummaryState, leaf: int, active: bool) -> Seq<WakerState> {
    let wc = s.worker_count as int;
    let lc = s.leaf_count as int;
    if wc == 0 || wc > s.wakers.len() {
        s.wakers
    } else {
        let owner = part_owner(lc, leaf, wc);
        let local = (leaf - part_start(lc, owner, wc)) as u64;
        if active {
            s.wakers.update(owner, leaf_marked_active(s.wakers[owner], local))
        } else {
            s.wakers.update(owner, leaf_cleared(s.wakers[owner], local))
        }
    }
}

/// The summary after the bit of (`leaf`, `signal`) is set: the partition owner is told
/// when the bit was clear.
pub open spec fn signal_activated(s: SummaryState, leaf: int, signal: usize) -> SummaryState {
    let prev = s.leaf_words[leaf];
    let t = SummaryState { leaf_words: s.leaf_words.update(leaf, prev | (1u64 << signal)), ..s };
    if !bit_set(prev, signal as u64) {
        SummaryState { wakers: notified(t, leaf, true), ..t }
    } else {
        t
    }
}

/// The summary after the bit of (`leaf`, `signal`) is cleared: the partition owner is
/// told when the bit was set and the leaf has no active signal left.
pub open spec fn signal_deactivated(s: SummaryState, leaf: int, signal: usize) -> SummaryState {
    let prev = s.leaf_words[leaf];
    let cleared = prev & !(1u64 << signal);
    let t = SummaryState { leaf_words: s.leaf_words.update(leaf, cleared), ..s };
    if bit_set(prev, signal as u64) && cleared & signal_mask(s.signals_per_leaf) == 0 {
        SummaryState { wakers: notified(t, leaf, false), ..t }
    } else {
        t
    }
}

impl View for Summary {
    type V = SummaryState;

    closed spec fn view(&self) -> SummaryState {
        SummaryState {
            leaf_words: self.leaf_words@,
            reservations: self.task_reservations@,
            leaf_count: self.leaf_count,
            signals_per_leaf: self.signals_per_leaf,
            next_partition: self.next_partition,
            wakers: self.wakers@.map_values(|w: WorkerWaker| w@),
            worker_count: self.worker_count,
        }
    }
}

impl Summary {
    /// The summary's internal consistency.
    pub closed spec fn wf(&self) -> bool {
        &&& self.leaf_count > 0
        &&& self.leaf_count <= usize::MAX / 2
        &&& self.leaf_words@.len() == self.leaf_count
        &&& 0 < self.signals_per_leaf <= 64
        &&& self.task_reservations@.len() == self.leaf_count * self.signals_per_leaf
        &&& self.leaf_summary_mask == signal_mask(self.signals_per_leaf)
        &&& self.wakers@.len() > 0
        &&& self.worker_count <= usize::MAX / 2
        &&& notify_fits(self.leaf_count, self.worker_count, self.wakers@.len() as int)
    }

    /// The shape that a well-formed summary has.
    pub proof fn lemma_wf_shape(&self)
        requires
            self.wf(),
        ensures
            self@.leaf_count > 0,
            self@.leaf_count <= usize::MAX / 2,
            self@.leaf_words.len() == self@.leaf_count,
            0 < self@.signals_per_leaf <= 64,
            self@.reservations.len() == self@.leaf_count * self@.signals_per_leaf,
    {
    }

    /// The owner of any leaf of a well-formed summary can be computed for any
    /// positive number of workers (the precondition of `compute_partition_owner`).
    pub proof fn lemma_partition_owner_computable(&self, leaf_idx: usize, worker_count: usize)
        requires
            self.wf(),
            leaf_idx < self@.leaf_count,
            worker_count > 0,
        ensures
            crate::partition::part_base(self@.leaf_count as int, worker_count as int) < usize::MAX,
            leaf_idx < crate::partition::part_extra(self@.leaf_count as int, worker_count as int) * (
            crate::partition::part_base(self@.leaf_count as int, worker_count as int) + 1)
                || crate::partition::part_base(self@.leaf_count as int, worker_count as int) > 0,
    {
        let lc = self@.leaf_count as int;
        let wc = worker_count as int;
        assert(lc / wc <= lc) by (nonlinear_arith)
            requires
                lc > 0,
                wc > 0,
        ;
        if lc / wc == 0 {
            assert(lc % wc == lc) by (nonlinear_arith)
                requires
                    lc / wc == 0,
                    lc >= 0,
                    wc > 0,
            {
                vstd::arithmetic::div_mod::lemma_fundamental_div_mod(lc, wc);
            }
            let e = lc % wc;
            assert(e * (0int + 1) == e) by (nonlinear_arith);
            assert(e * (lc / wc + 1) == e);
        }
    }

    /// Creates a summary of `leaf_count` leaves of `signals_per_leaf` signals each, with
    /// every signal inactive and every slot free.
    pub fn new(
        leaf_count: usize,
        signals_per_leaf: usize,
        wakers: Vec<WorkerWaker>,
        worker_count: usize,
    ) -> (s: Self)
        requires
            leaf_count > 0,
            leaf_count <= usize::MAX / 2,
            0 < signals_per_leaf <= 64,
            wakers@.len() > 0,
            leaf_count * signals_per_leaf <= usize::MAX,
            worker_count <= usize::MAX / 2,
            notify_fits(leaf_count, worker_count, wakers@.len() as int),
        ensures
            s.wf(),
            s@.leaf_words == Seq::new(leaf_count as nat, |i: int| 0u64),
            s@.reservations == Seq::new((leaf_count * signals_per_leaf) as nat, |i: int| 0u64),
            s@.leaf_count == leaf_count,
            s@.signals_per_leaf == signals_per_leaf,
            s@.next_partition == 0,
            s@.wakers == wakers@.map_values(|w: WorkerWaker| w@),
            s@.worker_count == worker_count,
    {
        let task_word_count = leaf_count * signals_per_leaf;
        let mut leaf_words: Vec<u64> = Vec::with_capacity(leaf_count);
        let mut i: usize = 0;
        while i < leaf_count
            invariant
                i <= leaf_count,
                leaf_words@ == Seq::new(i as nat, |k: int| 0u64),
            decreases leaf_count - i,
        {
            leaf_words.push(0);
            i = i + 1;
        }
        let mut task_reservations: Vec<u64> = Vec::with_capacity(task_word_count);
        let mut j: usize = 0;
        while j < task_word_count
            invariant
                j <= task_word_count,
                task_reservations@ == Seq::new(j as nat, |k: int| 0u64),
            decreases task_word_count - j,
        {
            task_reservations.push(0);
            j = j + 1;
        }
        let leaf_summary_mask = if signals_per_leaf >= 64 {
            u64::MAX
        } else {
            proof {
                let n = signals_per_leaf as u64;
                assert(1u64 << n >= 1) by (bit_vector)
                    requires
                        n < 64,
                ;
            }
            (1u64 << signals_per_leaf) - 1
        };
        Summary {
            leaf_words,
            task_reservations,
            leaf_count,
            signals_per_leaf,
            leaf_summary_mask,
            next_partition: 0,
            wakers,
            worker_count,
        }
    }

    /// The worker count the partitions are computed for.
    pub fn get_worker_count(&self) -> (r: usize)
        ensures
            r == self@.worker_count,
    {
        self.worker_count
    }

    /// Changes the worker count the partitions are computed for.
    pub fn set_worker_count(&mut self, worker_count: usize)
        requires
            old(self).wf(),
            worker_count <= usize::MAX / 2,
            notify_fits(old(self)@.leaf_count, worker_count, old(self)@.wakers.len() as int),
        ensures
            final(self).wf(),
            final(self)@ == (SummaryState { worker_count, ..old(self)@ }),
    {
        self.worker_count = worker_count;
    }

    /// The waker of worker `idx`.
    pub fn waker(&self, idx: usize) -> (r: &WorkerWaker)
        requires
            idx < self@.wakers.len(),
        ensures
            r@ == self@.wakers[idx as int],
    {
        &self.wakers[idx]
    }

    /// The summary word of leaf `idx`.
    pub fn leaf_word(&self, idx: usize) -> (r: u64)
        requires
            idx < self@.leaf_words.len(),
        ensures
            r == self@.leaf_words[idx as int],
    {
        self.leaf_words[idx]
    }

    /// Index of the reservation word of (`leaf_idx`, `signal_idx`).
    pub fn reservation_index(&self, leaf_idx: usize, signal_idx: usize) -> (r: usize)
        requires
            self.wf(),
            leaf_idx < self@.leaf_count,
            signal_idx < self@.signals_per_leaf,
        ensures
            r == res_index(self@, leaf_idx as int, signal_idx as int),
            r < self@.reservations.len(),
    {
        let n = self.task_reservations.len();
        proof {
            lemma_res_index_bound(
                leaf_idx as int,
                signal_idx as int,
                self.leaf_count as int,
                self.signals_per_leaf as int,
            );
        }
        leaf_idx * self.signals_per_leaf + signal_idx
    }

    /// The reservation word of (`leaf_idx`, `signal_idx`).
    pub fn reservation_word(&self, leaf_idx: usize, signal_idx: usize) -> (r: u64)
        requires
            self.wf(),
            leaf_idx < self@.leaf_count,
            signal_idx < self@.signals_per_leaf,
        ensures
            r == self@.reservations[res_index(self@, leaf_idx as int, signal_idx as int)],
    {
        let i = self.reservation_index(leaf_idx, signal_idx);
        self.task_reservations[i]
    }

    proof fn lemma_view_wakers(&self)
        ensures
            self@.wakers.len() == self.wakers@.len(),
            forall|i: int|
                0 <= i < self.wakers@.len() ==> #[trigger] self@.wakers[i] == self.wakers@[i]@,
    {
    }

    /// Tells the owner of `leaf_idx` that the leaf became active.
    fn notify_partition_owner_active(&mut self, leaf_idx: usize)
        requires
            old(self).wf(),
            leaf_idx < old(self)@.leaf_count,
        ensures
            final(self).wf(),
            final(self)@ == (SummaryState { wakers: notified(old(self)@, leaf_idx as int, true), ..old(self)@ }),
    {
        self.notify_partition_owner(leaf_idx, true)
    }

    /// Tells the owner of `leaf_idx` that the leaf became empty.
    fn notify_partition_owner_inactive(&mut self, leaf_idx: usize)
        requires
            old(self).wf(),
            leaf_idx < old(self)@.leaf_count,
        ensures
            final(self).wf(),
            final(self)@ == (SummaryState { wakers: notified(old(self)@, leaf_idx as int, false), ..old(self)@ }),
    {
        self.notify_partition_owner(leaf_idx, false)
    }

    /// Tells the owner of `leaf_idx` that the leaf became active (`active`) or empty.
    fn notify_partition_owner(&mut self, leaf_idx: usize, active: bool)
        requires
            old(self).wf(),
            leaf_idx < old(self)@.leaf_count,
        ensures
            final(self).wf(),
            final(self)@ == (SummaryState {
                wakers: notified(old(self)@, leaf_idx as int, active),
                ..old(self)@
            }),
    {
        proof {
            self.lemma_view_wakers();
        }
        let worker_count = self.worker_count;
        if worker_count == 0 || worker_count > self.wakers.len() {
            return;
        }
        proof {
            lemma_owner_in_partition(self.leaf_count as int, leaf_idx as int, worker_count as int);
            let o = part_owner(self.leaf_count as int, leaf_idx as int, worker_count as int);
            lemma_start_bounds(self.leaf_count as int, o, worker_count as int);
            lemma_split(self.leaf_count as int, worker_count as int);
        }
        let owner_id = self.compute_partition_owner(leaf_idx, worker_count);
        if owner_id >= worker_count {
            return;
        }
        if owner_id < self.wakers.len() {
            let local = self.global_to_local_leaf_idx(leaf_idx, owner_id, worker_count);
            if let Some(local_idx) = local {
                proof {
                    let lc = self.leaf_count as int;
                    let wc = worker_count as int;
                    assert(local_idx < part_len(lc, owner_id as int, wc));
                    assert(part_base(lc, wc) < 64) by {
                        assert(self.leaf_count / worker_count < 64);
                    }
                }
                let ghost old_wakers = self.wakers@;
                if active {
                    self.wakers[owner_id].mark_partition_leaf_active(local_idx);
                } else {
                    self.wakers[owner_id].clear_partition_leaf(local_idx);
                }
                proof {
                    assert(self.wakers@ == old_wakers.update(owner_id as int, self.wakers@[owner_id as int]));
                    assert(self@.wakers =~= notified(old(self)@, leaf_idx as int, active));
                }
            }
        }
    }

    /// Sets the bits of `mask` in the word of `leaf_idx`; returns whether the leaf had no
    /// valid signal bit set before.
    fn mark_leaf_bits(&mut self, leaf_idx: usize, mask: u64) -> (r: bool)
        requires
            old(self).wf(),
            leaf_idx < old(self)@.leaf_count,
        ensures
            final(self).wf(),
            mask == 0 ==> r == false && final(self)@ == old(self)@,
            mask != 0 ==> ({
                let prev = old(self)@.leaf_words[leaf_idx as int];
                let t = SummaryState {
                    leaf_words: old(self)@.leaf_words.update(leaf_idx as int, prev | mask),
                    ..old(self)@
                };
                &&& r == (prev & signal_mask(old(self)@.signals_per_leaf) == 0)
                &&& final(self)@ == if prev & mask != mask {
                    SummaryState { wakers: notified(t, leaf_idx as int, true), ..t }
                } else {
                    t
                }
            }),
    {
        if mask == 0 {
            return false;
        }
        let prev = self.leaf_words[leaf_idx];
        self.leaf_words.set(leaf_idx, prev | mask);
        let was_empty = prev & self.leaf_summary_mask == 0;
        let any_new_bits = (prev & mask) != mask;
        if any_new_bits {
            self.notify_partition_owner_active(leaf_idx);
        }
        was_empty
    }

    /// Clears the bits of `mask` in the word of `leaf_idx`; returns whether any of them
    /// was set.
    fn clear_leaf_bits(&mut self, leaf_idx: usize, mask: u64) -> (r: bool)
        requires
            old(self).wf(),
            leaf_idx < old(self)@.leaf_count,
        ensures
            final(self).wf(),
            mask == 0 ==> r == false && final(self)@ == old(self)@,
            mask != 0 ==> ({
                let prev = old(self)@.leaf_words[leaf_idx as int];
                let t = SummaryState {
                    leaf_words: old(self)@.leaf_words.update(leaf_idx as int, prev & !mask),
                    ..old(self)@
                };
                &&& r == (prev & mask != 0)
                &&& final(self)@ == if prev & mask == 0 {
                    t
                } else if (prev & !mask) & signal_mask(old(self)@.signals_per_leaf) == 0 {
                    SummaryState { wakers: notified(t, leaf_idx as int, false), ..t }
                } else {
                    t
                }
            }),
    {
        if mask == 0 {
            return false;
        }
        let prev = self.leaf_words[leaf_idx];
        self.leaf_words.set(leaf_idx, prev & !mask);
        if prev & mask == 0 {
            return false;
        }
        if (prev & !mask) & self.leaf_summary_mask == 0 {
            self.notify_partition_owner_inactive(leaf_idx);
        }
        true
    }

    /// Sets the summary bit of (`leaf_idx`, `signal_idx`), telling the partition owner
    /// when the bit was clear; returns whether the leaf had no active signal before.
    /// Out-of-range indices change nothing and return `false`.
    pub fn mark_signal_active(&mut self, leaf_idx: usize, signal_idx: usize) -> (r: bool)
        requires
            old(self).wf(),
        ensures
            final(self).wf(),
            leaf_idx >= old(self)@.leaf_count || signal_idx >= old(self)@.signals_per_leaf ==> !r
                && final(self)@ == old(self)@,
            leaf_idx < old(self)@.leaf_count && signal_idx < old(self)@.signals_per_leaf ==> {
                &&& r == (old(self)@.leaf_words[leaf_idx as int] & signal_mask(old(self)@.signals_per_leaf) == 0)
                &&& final(self)@ == signal_activated(old(self)@, leaf_idx as int, signal_idx)
            },
    {
        if leaf_idx >= self.leaf_count || signal_idx >= self.signals_per_leaf {
            return false;
        }
        let mask = 1u64 << signal_idx;
        proof {
            let prev = self.leaf_words@[leaf_idx as int];
            let k = signal_idx as u64;
            assert(mask != 0 && ((prev & mask != mask) == !((prev >> k) & 1u64 == 1u64)))
                by (bit_vector)
                requires
                    k < 64,
                    mask == 1u64 << k,
            ;
        }
        self.mark_leaf_bits(leaf_idx, mask)
    }

    /// Clears the summary bit of (`leaf_idx`, `signal_idx`), telling the partition owner
    /// when the leaf became empty; returns whether the bit was set. Out-of-range indices
    /// change nothing and return `false`.
    pub fn mark_signal_inactive(&mut self, leaf_idx: usize, signal_idx: usize) -> (r: bool)
        requires
            old(self).wf(),
        ensures
            final(self).wf(),
            leaf_idx >= old(self)@.leaf_count || signal_idx >= old(self)@.signals_per_leaf ==> !r
                && final(self)@ == old(self)@,
            leaf_idx < old(self)@.leaf_count && signal_idx < old(self)@.signals_per_leaf ==> {
                &&& r == bit_set(old(self)@.leaf_words[leaf_idx as int], signal_idx as u64)
                &&& final(self)@ == signal_deactivated(old(self)@, leaf_idx as int, signal_idx)
            },
    {
        if leaf_idx >= self.leaf_count || signal_idx >= self.signals_per_leaf {
            return false;
        }
        let mask = 1u64 << signal_idx;
        proof {
            let prev = self.leaf_words@[leaf_idx as int];
            let k = signal_idx as u64;
            assert(mask != 0 && ((prev & mask != 0) == ((prev >> k) & 1u64 == 1u64)))
                by (bit_vector)
                requires
                    k < 64,
                    mask == 1u64 << k,
            ;
        }
        self.clear_leaf_bits(leaf_idx, mask)
    }

    /// Reserves the lowest free task slot of (`leaf_idx`, `signal_idx`) and returns its
    /// bit; `None` when the indices are out of range or every slot is taken.
    pub fn reserve_task_in_leaf(&mut self, leaf_idx: usize, signal_idx: usize) -> (r: Option<u8>)
        requires
            old(self).wf(),
        ensures
            final(self).wf(),
            ({
                let s = old(self)@;
                let valid = leaf_idx < s.leaf_count && signal_idx < s.signals_per_leaf;
                let idx = res_index(s, leaf_idx as int, signal_idx as int);
                &&& r is None <==> !valid || s.reservations[idx] == u64::MAX
                &&& r is None ==> final(self)@ == s
                &&& r matches Some(b) ==> {
                    &&& b < 64
                    &&& !bit_set(s.reservations[idx], b as u64)
                    &&& forall|j: u64| j < b ==> #[trigger] bit_set(s.reservations[idx], j)
                    &&& final(self)@ == SummaryState {
                        reservations: s.reservations.update(
                            idx,
                            s.reservations[idx] | (1u64 << b),
                        ),
                        ..s
                    }
                }
            }),
    {
        if leaf_idx >= self.leaf_count || signal_idx >= self.signals_per_leaf {
            return None;
        }
        let i = self.reservation_index(leaf_idx, signal_idx);
        let current = self.task_reservations[i];
        let free = !current;
        if free == 0 {
            proof {
                assert(!current == 0u64 ==> current == u64::MAX) by (bit_vector);
            }
            return None;
        }
        proof {
            assert(current == u64::MAX ==> !current == 0u64) by (bit_vector);
        }
        let bit = free.trailing_zeros() as u8;
        proof {
            let t = lemma_lowest_bit(free);
            assert(t == bit as u64);
            lemma_bit_not(current, t);
            assert forall|j: u64| j < bit implies #[trigger] bit_set(current, j) by {
                lemma_bit_not(current, j);
            }
        }
        let mask = 1u64 << bit;
        self.task_reservations.set(i, current | mask);
        Some(bit)
    }

    /// Frees task slot `bit` of (`leaf_idx`, `signal_idx`); out-of-range arguments
    /// change nothing.
    pub fn release_task_in_leaf(&mut self, leaf_idx: usize, signal_idx: usize, bit: usize)
        requires
            old(self).wf(),
        ensures
            final(self).wf(),
            ({
                let s = old(self)@;
                let idx = res_index(s, leaf_idx as int, signal_idx as int);
                if leaf_idx < s.leaf_count && signal_idx < s.signals_per_leaf && bit < 64 {
                    final(self)@ == SummaryState {
                        reservations: s.reservations.update(idx, s.reservations[idx] & !(1u64 << bit)),
                        ..s
                    }
                } else {
                    final(self)@ == s
                }
            }),
    {
        if leaf_idx >= self.leaf_count || signal_idx >= self.signals_per_leaf || bit
            >= TASK_SLOTS_PER_SIGNAL {
            return;
        }
        let mask = !(1u64 << bit);
        let i = self.reservation_index(leaf_idx, signal_idx);
        let w = self.task_reservations[i];
        self.task_reservations.set(i, w & mask);
    }

    /// Reserves a slot in the first signal of `leaf_idx` that has a free slot.
    fn try_reserve_in_leaf(&mut self, leaf_idx: usize) -> (r: Option<(usize, usize, u8)>)
        requires
            old(self).wf(),
            leaf_idx < old(self)@.leaf_count,
        ensures
            final(self).wf(),
            r is None <==> leaf_full(old(self)@, leaf_idx as int),
            r is None ==> final(self)@ == old(self)@,
            r matches Some(t) ==> reserved(old(self)@, final(self)@, t) && t.0 == leaf_idx,
    {
        let mut signal_mask = self.leaf_summary_mask;
        let ghost mut sidx: int = 0;
        proof {
            assert forall|j: u64| j < 64 implies #[trigger] bit_set(signal_mask, j) == (sidx <= j
                < self.signals_per_leaf) by {
                if self.signals_per_leaf >= 64 {
                    lemma_bit_max(j);
                } else {
                    lemma_bit_low_mask(self.signals_per_leaf as u64, j);
                }
            }
        }
        while signal_mask != 0
            invariant
                self.wf(),
                self@ == old(self)@,
                leaf_idx < self@.leaf_count,
                0 <= sidx <= self.signals_per_leaf,
                forall|j: u64| j < 64 ==> #[trigger] bit_set(signal_mask, j) == (sidx <= j
                    < self.signals_per_leaf),
                forall|sig: int|
                    0 <= sig < sidx ==> #[trigger] old(self)@.reservations[res_index(
                        old(self)@,
                        leaf_idx as int,
                        sig,
                    )] == u64::MAX,
            decreases self.signals_per_leaf - sidx,
        {
            let ghost m = signal_mask;
            let ghost mut t: u64 = 0;
            proof {
                t = lemma_lowest_bit(signal_mask);
                if sidx < self.signals_per_leaf {
                    assert(bit_set(signal_mask, sidx as u64));
                }
            }
            let signal_idx = signal_mask.trailing_zeros() as usize;
            proof {
                assert(t == sidx) by {
                    if t < sidx {
                        assert(bit_set(signal_mask, t));
                    }
                    if sidx < t && sidx < self.signals_per_leaf {
                        assert(!bit_set(signal_mask, sidx as u64));
                    }
                    if sidx >= self.signals_per_leaf {
                        assert(bit_set(signal_mask, t));
                    }
                }
            }
            assert(signal_idx == sidx);
            if signal_idx >= self.signals_per_leaf {
                return None;
            }
            let r = self.reserve_task_in_leaf(leaf_idx, signal_idx);
            if let Some(bit) = r {
                proof {
                    assert(!leaf_full(old(self)@, leaf_idx as int)) by {
                        let i = res_index(old(self)@, leaf_idx as int, signal_idx as int);
                        assert(old(self)@.reservations[i] != u64::MAX);
                    }
                }
                return Some((leaf_idx, signal_idx, bit));
            }
            signal_mask = signal_mask & (signal_mask - 1);
            proof {
                assert forall|j: u64| j < 64 implies #[trigger] bit_set(signal_mask, j) == (sidx + 1
                    <= j < self.signals_per_leaf) by {
                    lemma_clear_lowest(m, t, j);
                }
                sidx = sidx + 1;
            }
        }
        proof {
            if sidx < self.signals_per_leaf {
                assert(bit_set(signal_mask, sidx as u64));
                crate::bits::lemma_bit_zero(sidx as u64);
                assert(false);
            }
        }
        None
    }

    /// Reserves a free task slot somewhere in the summary: partitions are visited in
    /// turn from a rotating start, the leaves of a partition from a random offset.
    /// Returns `None` exactly when every slot of every leaf is reserved.
    pub fn reserve_task(&mut self) -> (r: Option<(usize, usize, u8)>)
        requires
            old(self).wf(),
        ensures
            final(self).wf(),
            final(self)@.next_partition == old(self)@.next_partition.wrapping_add(1),
            r is None <==> forall|l: int| 0 <= l < old(self)@.leaf_count ==> #[trigger] leaf_full(old(self)@, l),
            r is None ==> final(self)@ == (SummaryState {
                next_partition: final(self)@.next_partition,
                ..old(self)@
            }),
            r matches Some(t) ==> reserved(
                SummaryState { next_partition: final(self)@.next_partition, ..old(self)@ },
                final(self)@,
                t,
            ),
    {
        let worker_count = self.worker_count;
        let partition_count = if worker_count > 1 {
            worker_count
        } else {
            1
        };
        let start_partition = self.next_partition % partition_count;
        self.next_partition = self.next_partition.wrapping_add(1);
        let ghost s0 = self@;
        let lc = self.leaf_count;
        let mut partition_offset: usize = 0;
        while partition_offset < partition_count
            invariant
                self.wf(),
                self@ == s0,
                s0 == (SummaryState { next_partition: s0.next_partition, ..old(self)@ }),
                s0.next_partition == old(self)@.next_partition.wrapping_add(1),
                lc == self.leaf_count,
                partition_count <= usize::MAX / 2,
                start_partition < partition_count,
                partition_count > 0,
                partition_offset <= partition_count,
                forall|k: int|
                    0 <= k < partition_offset ==> #[trigger] partition_done(
                        s0,
                        rot(start_partition as int, k, partition_count as int),
                        partition_count as int,
                    ),
            decreases partition_count - partition_offset,
        {
            let worker_id = (start_partition + partition_offset) % partition_count;
            proof {
                lemma_start_bounds(lc as int, worker_id as int, partition_count as int);
                lemma_start_bounds(lc as int, worker_id as int + 1, partition_count as int);
                lemma_split(lc as int, partition_count as int);
            }
            let partition_start = self.partition_start_for_worker(worker_id, partition_count);
            let partition_end = self.partition_end_for_worker(worker_id, partition_count);
            if partition_end <= partition_start {
                proof {
                    assert(partition_done(s0, worker_id as int, partition_count as int));
                    assert(worker_id == rot(start_partition as int, partition_offset as int, partition_count as int));
                }
                partition_offset = partition_offset + 1;
                continue;
            }
            let partition_len = partition_end - partition_start;
            if partition_len == 1 {
                let found = self.try_reserve_in_leaf(partition_start);
                if found.is_some() {
                    proof {
                        lemma_leaf_full_same(s0, old(self)@, partition_start as int);
                    }
                    return found;
                }
                proof {
                    assert forall|l: int| partition_start <= l < partition_end implies #[trigger] leaf_full(s0, l) by {
                        assert(l == partition_start);
                    }
                    assert(partition_done(s0, worker_id as int, partition_count as int));
                    assert(worker_id == rot(start_partition as int, partition_offset as int, partition_count as int));
                }
                partition_offset = partition_offset + 1;
                continue;
            }
            let random_seed = random_seed() as usize;
            let start_leaf_offset = random_seed % partition_len;
            let mut leaf_offset: usize = 0;
            while leaf_offset < partition_len
                invariant
                    self.wf(),
                    self@ == s0,
                    s0 == (SummaryState { next_partition: s0.next_partition, ..old(self)@ }),
                    s0.next_partition == old(self)@.next_partition.wrapping_add(1),
                    lc == self.leaf_count,
                    partition_start < partition_end <= lc,
                    partition_len == partition_end - partition_start,
                    start_leaf_offset < partition_len,
                    leaf_offset <= partition_len,
                    forall|k: int|
                        0 <= k < leaf_offset ==> #[trigger] leaf_full(
                            s0,
                            partition_start + rot(start_leaf_offset as int, k, partition_len as int),
                        ),
                decreases partition_len - leaf_offset,
            {
                let leaf_idx = partition_start + (start_leaf_offset + leaf_offset) % partition_len;
                let found = self.try_reserve_in_leaf(leaf_idx);
                if found.is_some() {
                    proof {
                        lemma_leaf_full_same(s0, old(self)@, leaf_idx as int);
                    }
                    return found;
                }
                leaf_offset = leaf_offset + 1;
            }
            proof {
                assert forall|l: int| partition_start <= l < partition_end implies #[trigger] leaf_full(s0, l) by {
                    let k0 = l - partition_start;
                    let k = if k0 >= start_leaf_offset {
                        k0 - start_leaf_offset
                    } else {
                        k0 + partition_len - start_leaf_offset
                    };
                    assert(rot(start_leaf_offset as int, k, partition_len as int) == k0) by {
                        lemma_mod_wrap(start_leaf_offset + k, partition_len as int);
                    }
                    assert(leaf_full(s0, partition_start + rot(start_leaf_offset as int, k, partition_len as int)));
                }
                assert(partition_done(s0, worker_id as int, partition_count as int));
                assert(worker_id == rot(start_partition as int, partition_offset as int, partition_count as int));
            }
            partition_offset = partition_offset + 1;
        }
        proof {
            assert forall|l: int| 0 <= l < old(self)@.leaf_count implies #[trigger] leaf_full(old(self)@, l) by {
                lemma_owner_in_partition(lc as int, l, partition_count as int);
                let w = part_owner(lc as int, l, partition_count as int);
                let k = if w >= start_partition {
                    w - start_partition
                } else {
                    w + partition_count - start_partition
                };
                assert(rot(start_partition as int, k, partition_count as int) == w) by {
                    lemma_mod_wrap(start_partition + k, partition_count as int);
                }
                assert(partition_done(s0, rot(start_partition as int, k, partition_count as int), partition_count as int));
                assert(leaf_full(s0, l));
                assert forall|sig: int| 0 <= sig < old(self)@.signals_per_leaf implies #[trigger] old(self)@.reservations[res_index(old(self)@, l, sig)] == u64::MAX by {
                    assert(s0.reservations[res_index(s0, l, sig)] == u64::MAX);
                }
            }
        }
        None
    }

    /// Clears the summary bit of (`leaf_idx`, `signal_idx`) when `signal`, the task
    /// signal word it summarises, is zero.
    pub fn mark_signal_inactive_if_empty(&mut self, leaf_idx: usize, signal_idx: usize, signal: u64)
        requires
            old(self).wf(),
        ensures
            final(self).wf(),
            signal != 0 ==> final(self)@ == old(self)@,
            signal == 0 && (leaf_idx >= old(self)@.leaf_count || signal_idx >= old(self)@.signals_per_leaf)
                ==> final(self)@ == old(self)@,
            signal == 0 && leaf_idx < old(self)@.leaf_count && signal_idx < old(self)@.signals_per_leaf
                ==> final(self)@ == signal_deactivated(old(self)@, leaf_idx as int, signal_idx),
    {
        if signal == 0 {
            self.mark_signal_inactive(leaf_idx, signal_idx);
        }
    }

    /// Number of leaves.
    pub fn leaf_count(&self) -> (r: usize)
        ensures
            r == self@.leaf_count,
    {
        self.leaf_count
    }

    /// Number of signals per leaf.
    pub fn signals_per_leaf(&self) -> (r: usize)
        ensures
            r == self@.signals_per_leaf,
    {
        self.signals_per_leaf
    }

    /// The worker whose partition holds `leaf_idx` (0 when `worker_count` is 0).
    pub fn compute_partition_owner(&self, leaf_idx: usize, worker_count: usize) -> (r: usize)
        requires
            worker_count == 0 || part_base(self@.leaf_count as int, worker_count as int) < usize::MAX,
            worker_count == 0 || leaf_idx < part_extra(self@.leaf_count as int, worker_count as int)
                * (part_base(self@.leaf_count as int, worker_count as int) + 1) || part_base(
                self@.leaf_count as int,
                worker_count as int,
            ) > 0,
        ensures
            r == part_owner(self@.leaf_count as int, leaf_idx as int, worker_count as int),
    {
        if worker_count == 0 {
            return 0;
        }
        let base = self.leaf_count / worker_count;
        let extra = self.leaf_count % worker_count;
        proof {
            lemma_split(self.leaf_count as int, worker_count as int);
        }
        let boundary = extra * (base + 1);
        if leaf_idx < boundary {
            leaf_idx / (base + 1)
        } else {
            proof {
                assert(extra <= boundary) by (nonlinear_arith)
                    requires
                        boundary == extra * (base + 1),
                        extra >= 0,
                        base >= 0,
                ;
                assert((leaf_idx - boundary) / (base as int) <= leaf_idx - boundary) by {
                    vstd::arithmetic::div_mod::lemma_div_is_ordered_by_denominator(
                        (leaf_idx - boundary) as int,
                        1,
                        base as int,
                    );
                }
            }
            extra + (leaf_idx - boundary) / base
        }
    }

    /// First leaf of the partition of `worker_id` (0 when `worker_count` is 0).
    pub fn partition_start_for_worker(&self, worker_id: usize, worker_count: usize) -> (r: usize)
        requires
            worker_count == 0 || part_base(self@.leaf_count as int, worker_count as int) < usize::MAX,
            part_start(self@.leaf_count as int, worker_id as int, worker_count as int) <= usize::MAX,
        ensures
            r == part_start(self@.leaf_count as int, worker_id as int, worker_count as int),
    {
        if worker_count == 0 {
            return 0;
        }
        let base = self.leaf_count / worker_count;
        let extra = self.leaf_count % worker_count;
        proof {
            lemma_split(self.leaf_count as int, worker_count as int);
        }
        if worker_id < extra {
            proof {
                assert(worker_id * (base + 1) <= extra * (base + 1)) by (nonlinear_arith)
                    requires
                        worker_id < extra,
                        base >= 0,
                ;
            }
            worker_id * (base + 1)
        } else {
            proof {
                assert((worker_id - extra) * base >= 0) by (nonlinear_arith)
                    requires
                        worker_id >= extra,
                        base >= 0,
                ;
                assert(extra * (base + 1) >= 0) by (nonlinear_arith)
                    requires
                        extra >= 0,
                        base >= 0,
                ;
            }
            extra * (base + 1) + (worker_id - extra) * base
        }
    }

    /// One past the last leaf of the partition of `worker_id` (0 when `worker_count`
    /// is 0).
    pub fn partition_end_for_worker(&self, worker_id: usize, worker_count: usize) -> (r: usize)
        requires
            worker_count == 0 || part_base(self@.leaf_count as int, worker_count as int) < usize::MAX,
            worker_count == 0 || part_start(self@.leaf_count as int, worker_id as int, worker_count as int)
                + part_len(self@.leaf_count as int, worker_id as int, worker_count as int)
                <= usize::MAX,
        ensures
            r == part_end(self@.leaf_count as int, worker_id as int, worker_count as int),
    {
        if worker_count == 0 {
            return 0;
        }
        proof {
            lemma_split(self.leaf_count as int, worker_count as int);
        }
        let start = self.partition_start_for_worker(worker_id, worker_count);
        let base = self.leaf_count / worker_count;
        let extra = self.leaf_count % worker_count;
        let len = if worker_id < extra {
            base + 1
        } else {
            base
        };
        let e = start + len;
        if e < self.leaf_count {
            e
        } else {
            self.leaf_count
        }
    }

    /// Index of `leaf_idx` within the partition of `worker_id`, or `None` when the leaf
    /// lies outside it.
    pub fn global_to_local_leaf_idx(&self, leaf_idx: usize, worker_id: usize, worker_count: usize) -> (r:
        Option<usize>)
        requires
            worker_count == 0 || part_base(self@.leaf_count as int, worker_count as int) < usize::MAX,
            worker_count == 0 || part_start(self@.leaf_count as int, worker_id as int, worker_count as int)
                + part_len(self@.leaf_count as int, worker_id as int, worker_count as int)
                <= usize::MAX,
        ensures
            ({
                let lc = self@.leaf_count as int;
                let s = part_start(lc, worker_id as int, worker_count as int);
                let e = part_end(lc, worker_id as int, worker_count as int);
                r == if s <= leaf_idx < e {
                    Some((leaf_idx - s) as usize)
                } else {
                    None
                }
            }),
    {
        proof {
            if worker_count > 0 {
                lemma_split(self.leaf_count as int, worker_count as int);
            }
        }
        let partition_start = self.partition_start_for_worker(worker_id, worker_count);
        let partition_end = self.partition_end_for_worker(worker_id, worker_count);
        if leaf_idx >= partition_start && leaf_idx < partition_end {
            Some(leaf_idx - partition_start)
        } else {
            None
        }
    }
}

/// `after` is `before` with the slot `t` = (leaf, signal, bit) reserved: the slot was
/// free, lies in range, and is the only change.
pub open spec fn reserved(before: SummaryState, after: SummaryState, t: (usize, usize, u8)) -> bool {
    let idx = res_index(before, t.0 as int, t.1 as int);
    &&& t.0 < before.leaf_count
    &&& t.1 < before.signals_per_leaf
    &&& t.2 < 64
    &&& !bit_set(before.reservations[idx], t.2 as u64)
    &&& after == SummaryState {
        reservations: before.reservations.update(idx, before.reservations[idx] | (1u64 << t.2)),
        ..before
    }
}

/// Releasing the slot that a reservation just took gives back the state before the
/// reservation.
pub proof fn lemma_release_undoes_reserve(before: SummaryState, after: SummaryState, t: (usize, usize, u8))
    requires
        reserved(before, after, t),
        res_index(before, t.0 as int, t.1 as int) < before.reservations.len(),
    ensures
        ({
            let idx = res_index(after, t.0 as int, t.1 as int);
            SummaryState {
                reservations: after.reservations.update(idx, after.reservations[idx] & !(1u64 << t.2)),
                ..after
            } == before
        }),
{
    let idx = res_index(after, t.0 as int, t.1 as int);
    let w = before.reservations[idx];
    let b = t.2 as u64;
    assert(!bit_set(w, b));
    assert(((w | (1u64 << b)) & !(1u64 << b)) == w) by (bit_vector)
        requires
            b < 64,
            !(((w >> b) & 1u64) == 1u64),
    ;
    assert(after.reservations.update(idx, after.reservations[idx] & !(1u64 << t.2)) =~= before.reservations);
}

/// `(start + k) mod n`.
pub open spec fn rot(start: int, k: int, n: int) -> int {
    (start + k) % n
}

/// Every leaf of worker `w`'s partition (of `s.leaf_count` leaves over `wc` workers) is full.
pub open spec fn partition_done(s: SummaryState, w: int, wc: int) -> bool {
    forall|l: int|
        part_start(s.leaf_count as int, w, wc) <= l < part_end(s.leaf_count as int, w, wc)
            ==> #[trigger] leaf_full(s, l)
}

proof fn lemma_leaf_full_same(a: SummaryState, b: SummaryState, l: int)
    requires
        a.reservations == b.reservations,
        a.signals_per_leaf == b.signals_per_leaf,
    ensures
        leaf_full(a, l) == leaf_full(b, l),
{
    if leaf_full(a, l) {
        assert forall|sig: int| 0 <= sig < b.signals_per_leaf implies #[trigger] b.reservations[res_index(b, l, sig)] == u64::MAX by {
            assert(a.reservations[res_index(a, l, sig)] == u64::MAX);
        }
    }
    if leaf_full(b, l) {
        assert forall|sig: int| 0 <= sig < a.signals_per_leaf implies #[trigger] a.reservations[res_index(a, l, sig)] == u64::MAX by {
            assert(b.reservations[res_index(b, l, sig)] == u64::MAX);
        }
    }
}

proof fn lemma_res_index_bound(leaf: int, sig: int, lc: int, spl: int)
    requires
        0 <= leaf < lc,
        0 <= sig < spl,
    ensures
        0 <= leaf * spl <= leaf * spl + sig < lc * spl,
{
    assert(0 <= leaf * spl <= leaf * spl + sig < lc * spl) by (nonlinear_arith)
        requires
            0 <= leaf < lc,
            0 <= sig < spl,
    ;
}

} // verus!
