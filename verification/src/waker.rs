use vstd::prelude::*;

use crate::bits::{
    bit_set, count_ones, find_nearest, lemma_bit_and, lemma_bit_low_mask, lemma_bit_max, lemma_bit_not, lemma_bit_or,
    lemma_bit_single, lemma_bit_zero, lemma_zero_iff_no_bit, nearest_bit, popcount,
};

verus! {

/// Number of queue-word summary bits held in the status word.
pub const STATUS_SUMMARY_BITS: u32 = 62;

/// Mask of the queue-word summary bits (bits 0..62) of the status word.
pub const STATUS_SUMMARY_MASK: u64 = 0x3FFF_FFFF_FFFF_FFFFu64;

/// Number of summary words a status word can describe.
pub const STATUS_SUMMARY_WORDS: usize = 62;

/// Status bit set while the worker's partition holds work.
pub const STATUS_BIT_PARTITION: u64 = 0x4000_0000_0000_0000u64;

/// Status bit set while the worker has been asked to yield.
pub const STATUS_BIT_YIELD: u64 = 0x8000_0000_0000_0000u64;

/// Per-worker wake-up state: a status word of queue summary bits and control flags,
/// a counting semaphore of permits, a sleeper count, the registered worker count and
/// the summary of active leaves in the worker's partition.
pub struct WorkerWaker {
    status: u64,
    permits: u64,
    sleepers: usize,
    worker_count: usize,
    partition_summary: u64,
}

/// The abstract state of a waker.
pub struct WakerState {
    pub status: u64,
    pub permits: u64,
    pub sleepers: usize,
    pub worker_count: usize,
    pub partition_summary: u64,
}

/// The state after `n` permits are released.
pub open spec fn released(s: WakerState, n: u64) -> WakerState {
    if n == 0 {
        s
    } else {
        WakerState { permits: s.permits.wrapping_add(n), ..s }
    }
}

/// The state after the status flag `flag` is raised: one permit is released when the
/// flag was clear before.
pub open spec fn flag_marked(s: WakerState, flag: u64) -> WakerState {
    let t = WakerState { status: s.status | flag, ..s };
    if s.status & flag == 0 {
        released(t, 1)
    } else {
        t
    }
}

/// The state after the partition flag is withdrawn: the flag is cleared, and raised
/// again at once when the partition summary still shows work.
pub open spec fn tasks_unmarked(s: WakerState) -> WakerState {
    if s.status & STATUS_BIT_PARTITION == 0 {
        s
    } else {
        let t = WakerState { status: s.status & !STATUS_BIT_PARTITION, ..s };
        if t.partition_summary != 0 {
            flag_marked(t, STATUS_BIT_PARTITION)
        } else {
            t
        }
    }
}

/// Whether leaf `start + i` of `leaf_words` holds work.
pub open spec fn leaf_active(leaf_words: Seq<u64>, start: int, i: int) -> bool {
    0 <= start + i < leaf_words.len() && leaf_words[start + i] != 0
}

/// The state after local leaf `local` of the partition is recorded as active.
pub open spec fn leaf_marked_active(s: WakerState, local: u64) -> WakerState {
    let t = WakerState { partition_summary: s.partition_summary | (1u64 << local), ..s };
    if s.partition_summary == 0 {
        flag_marked(t, STATUS_BIT_PARTITION)
    } else {
        t
    }
}

/// The state after local leaf `local` of the partition is recorded as empty.
pub open spec fn leaf_cleared(s: WakerState, local: u64) -> WakerState {
    let bit = 1u64 << local;
    let t = WakerState { partition_summary: s.partition_summary & !bit, ..s };
    if s.partition_summary & bit != 0 && s.partition_summary & !bit == 0 {
        tasks_unmarked(t)
    } else {
        t
    }
}

/// Length of the span `[start, end)`, zero when `end <= start`.
pub open spec fn span_len(start: usize, end: usize) -> int {
    if end > start {
        end - start
    } else {
        0
    }
}

/// Whether some bit below `len` of `x` is set.
pub open spec fn any_bit_below(x: u64, len: int) -> bool {
    exists|i: u64| i < len && #[trigger] bit_set(x, i)
}

/// The flag and permit changes of a partition resampling that stores `new_ps`: an
/// empty span withdraws the flag when the summary held anything; otherwise the flag
/// is raised when the partition turned non-empty and withdrawn when it turned empty.
pub open spec fn sync_transition(s: WakerState, new_ps: u64, len: int, has_work: bool) -> WakerState {
    let t = WakerState { partition_summary: new_ps, ..s };
    let had = any_bit_below(s.partition_summary, len);
    if len == 0 {
        if s.partition_summary != 0 {
            tasks_unmarked(t)
        } else {
            t
        }
    } else if has_work && !had {
        flag_marked(t, STATUS_BIT_PARTITION)
    } else if !has_work && had {
        tasks_unmarked(t)
    } else {
        t
    }
}

impl View for WorkerWaker {
    type V = WakerState;

    closed spec fn view(&self) -> WakerState {
        WakerState {
            status: self.status,
            permits: self.permits,
            sleepers: self.sleepers,
            worker_count: self.worker_count,
            partition_summary: self.partition_summary,
        }
    }
}

impl WorkerWaker {

    /// A waker with no summary bits, no flags, no permits, no sleepers and no workers.
    pub fn new() -> (w: Self)
        ensures
            w@ == (WakerState {
                status: 0,
                permits: 0,
                sleepers: 0,
                worker_count: 0,
                partition_summary: 0,
            }),
    {
        WorkerWaker { status: 0, permits: 0, sleepers: 0, worker_count: 0, partition_summary: 0 }
    }

    /// The raw status word.
    pub fn status(&self) -> (r: u64)
        ensures
            r == self@.status,
    {
        self.status
    }

    /// The (yield, partition) control flags of the status word.
    pub fn status_bits(&self) -> (r: (bool, bool))
        ensures
            r == (self@.status & STATUS_BIT_YIELD != 0, self@.status & STATUS_BIT_PARTITION != 0),
    {
        (self.status & STATUS_BIT_YIELD != 0, self.status & STATUS_BIT_PARTITION != 0)
    }

    fn mark_flag(&mut self, flag: u64)
        ensures
            final(self)@ == flag_marked(old(self)@, flag),
    {
        let prev = self.status;
        self.status = prev | flag;
        if prev & flag == 0 {
            self.release(1);
        }
    }

    /// Raises the yield flag; releases one permit when it was clear.
    pub fn mark_yield(&mut self)
        ensures
            final(self)@ == flag_marked(old(self)@, STATUS_BIT_YIELD),
    {
        self.mark_flag(STATUS_BIT_YIELD);
    }

    /// Clears the yield flag.
    pub fn try_unmark_yield(&mut self)
        ensures
            final(self)@ == (WakerState { status: old(self)@.status & !STATUS_BIT_YIELD, ..old(self)@ }),
    {
        let snapshot = self.status;
        if snapshot & STATUS_BIT_YIELD == 0 {
            proof {
                assert(snapshot & !STATUS_BIT_YIELD == snapshot) by (bit_vector)
                    requires
                        snapshot & 0x8000_0000_0000_0000u64 == 0,
                ;
            }
            return;
        }
        self.status = snapshot & !STATUS_BIT_YIELD;
    }

    /// Raises the partition flag; releases one permit when it was clear.
    pub fn mark_tasks(&mut self)
        ensures
            final(self)@ == flag_marked(old(self)@, STATUS_BIT_PARTITION),
    {
        self.mark_flag(STATUS_BIT_PARTITION);
    }

    /// Clears the partition flag, raising it again when the partition summary still
    /// shows work.
    pub fn try_unmark_tasks(&mut self)
        ensures
            final(self)@ == tasks_unmarked(old(self)@),
    {
        let snapshot = self.status;
        if snapshot & STATUS_BIT_PARTITION == 0 {
            return;
        }
        self.status = snapshot & !STATUS_BIT_PARTITION;
        if self.partition_summary != 0 {
            self.mark_tasks();
        }
    }

    /// Marks summary word `index` active; releases one permit on its 0-to-1 transition.
    pub fn mark_active(&mut self, index: u64)
        requires
            index < 62,
        ensures
            final(self)@ == flag_marked(old(self)@, 1u64 << index),
    {
        let mask = 1u64 << index;
        if self.status & mask != 0 {
            proof {
                let s = self.status;
                assert(s | mask == s) by (bit_vector)
                    requires
                        mask == 1u64 << index,
                        index < 64,
                        s & mask != 0,
                ;
            }
            return;
        }
        self.mark_flag(mask);
    }

    /// Marks all summary words of `mask` active (bits of `mask` outside the summary
    /// are ignored) and releases one permit per newly set word.
    pub fn mark_active_mask(&mut self, mask: u64)
        ensures
            final(self)@ == released(
                WakerState {
                    status: old(self)@.status | (mask & STATUS_SUMMARY_MASK),
                    ..old(self)@
                },
                popcount(!old(self)@.status & (mask & STATUS_SUMMARY_MASK)) as u64,
            ),
    {
        let summary_mask = mask & STATUS_SUMMARY_MASK;
        if summary_mask == 0 {
            proof {
                let s = self.status;
                assert(s | 0u64 == s) by (bit_vector);
                assert(!s & 0u64 == 0u64) by (bit_vector);
            }
            return;
        }
        let prev = self.status;
        self.status = prev | summary_mask;
        let newly = (!prev) & summary_mask;
        let k = count_ones(newly);
        if k > 0 {
            self.release(k as usize);
        }
    }

    /// The active summary word closest to `nearest_to_index` (the lower one on a
    /// tie), or 64 when no word is active.
    pub fn summary_select(&self, nearest_to_index: u64) -> (r: u64)
        requires
            nearest_to_index < 64,
        ensures
            (self@.status & STATUS_SUMMARY_MASK) == 0 <==> r == 64,
            (self@.status & STATUS_SUMMARY_MASK) != 0 ==> nearest_bit(self@.status & STATUS_SUMMARY_MASK, nearest_to_index, r),
    {
        let summary = self.status & STATUS_SUMMARY_MASK;
        find_nearest(summary, nearest_to_index)
    }

    /// Clears summary bit `bit_index` when the signal word it summarises is empty.
    pub fn try_unmark_if_empty(&mut self, bit_index: u64, signal: u64)
        requires
            bit_index < 62,
        ensures
            final(self)@ == (if signal == 0 {
                WakerState { status: old(self)@.status & !(1u64 << bit_index), ..old(self)@ }
            } else {
                old(self)@
            }),
    {
        let mask = 1u64 << bit_index;
        if signal != 0 {
            return;
        }
        let snapshot = self.status;
        if snapshot & mask == 0 {
            proof {
                assert(snapshot & mask == 0 ==> snapshot & !mask == snapshot) by (bit_vector);
            }
            return;
        }
        self.status = snapshot & !mask;
    }

    /// Clears summary bit `bit_index`.
    pub fn try_unmark(&mut self, bit_index: u64)
        requires
            bit_index < 62,
        ensures
            final(self)@ == (WakerState {
                status: old(self)@.status & !(1u64 << bit_index),
                ..old(self)@
            }),
    {
        let mask = 1u64 << bit_index;
        if self.status & mask != 0 {
            self.status = self.status & !(1u64 << bit_index);
        } else {
            proof {
                let s = self.status;
                assert(s & mask == 0 ==> s & !mask == s) by (bit_vector);
            }
        }
    }

    /// The queue-word summary bits of the status word.
    pub fn snapshot_summary(&self) -> (r: u64)
        ensures
            r == self@.status & STATUS_SUMMARY_MASK,
    {
        self.status & STATUS_SUMMARY_MASK
    }

    /// Takes one permit when one is available.
    pub fn try_acquire(&mut self) -> (r: bool)
        ensures
            r == (old(self)@.permits > 0),
            final(self)@ == (if r {
                WakerState { permits: (old(self)@.permits - 1) as u64, ..old(self)@ }
            } else {
                old(self)@
            }),
    {
        if self.permits > 0 {
            self.permits = self.permits - 1;
            true
        } else {
            false
        }
    }

    /// Releases `n` permits.
    pub fn release(&mut self, n: usize)
        ensures
            final(self)@ == released(old(self)@, n as u64),
    {
        if n == 0 {
            return;
        }
        self.permits = self.permits.wrapping_add(n as u64);
    }

    /// The queue-word summary bits of the status word.
    pub fn summary_bits(&self) -> (r: u64)
        ensures
            r == self@.status & STATUS_SUMMARY_MASK,
    {
        self.status & STATUS_SUMMARY_MASK
    }

    /// The number of available permits.
    pub fn permits(&self) -> (r: u64)
        ensures
            r == self@.permits,
    {
        self.permits
    }

    /// The number of registered sleepers.
    pub fn sleepers(&self) -> (r: usize)
        ensures
            r == self@.sleepers,
    {
        self.sleepers
    }

    /// Counts one more sleeper.
    pub fn register_sleeper(&mut self)
        ensures
            final(self)@ == (WakerState {
                sleepers: old(self)@.sleepers.wrapping_add(1),
                ..old(self)@
            }),
    {
        self.sleepers = self.sleepers.wrapping_add(1);
    }

    /// Counts one sleeper less.
    pub fn unregister_sleeper(&mut self)
        ensures
            final(self)@ == (WakerState {
                sleepers: old(self)@.sleepers.wrapping_sub(1),
                ..old(self)@
            }),
    {
        self.sleepers = self.sleepers.wrapping_sub(1);
    }

    /// Counts one more worker and returns the new count.
    pub fn register_worker(&mut self) -> (r: usize)
        requires
            old(self)@.worker_count < usize::MAX,
        ensures
            r == old(self)@.worker_count + 1,
            final(self)@ == (WakerState { worker_count: r, ..old(self)@ }),
    {
        self.worker_count = self.worker_count + 1;
        self.worker_count
    }

    /// Counts one worker less and returns the new count, floored at zero.
    pub fn unregister_worker(&mut self) -> (r: usize)
        ensures
            r == (if old(self)@.worker_count == 0 {
                0
            } else {
                old(self)@.worker_count - 1
            }),
            final(self)@ == (WakerState { worker_count: r, ..old(self)@ }),
    {
        let next = self.worker_count.saturating_sub(1);
        self.worker_count = next;
        next
    }

    /// The number of registered workers.
    pub fn get_worker_count(&self) -> (r: usize)
        ensures
            r == self@.worker_count,
    {
        self.worker_count
    }

    /// Resamples the partition `[partition_start, partition_end)` of `leaf_words` into the
    /// partition summary (bit `i` set iff leaf `partition_start + i` exists and is
    /// nonzero; bits at and above the partition length keep their value), raises the
    /// partition flag when the partition turned non-empty, withdraws it when it turned
    /// empty, and returns whether the partition holds work.
    pub fn sync_partition_summary(
        &mut self,
        partition_start: usize,
        partition_end: usize,
        leaf_words: &[u64],
    ) -> (r: bool)
        requires
            partition_end <= partition_start || partition_end - partition_start <= 64,
        ensures
            r == exists|i: int|
                0 <= i < span_len(partition_start, partition_end) && #[trigger] leaf_active(
                    leaf_words@,
                    partition_start as int,
                    i,
                ),
            span_len(partition_start, partition_end) == 0 ==> final(self)@.partition_summary == 0,
            span_len(partition_start, partition_end) > 0 ==> forall|i: u64|
                i < 64 ==> #[trigger] bit_set(final(self)@.partition_summary, i) == if i
                    < span_len(partition_start, partition_end) {
                    leaf_active(leaf_words@, partition_start as int, i as int)
                } else {
                    bit_set(old(self)@.partition_summary, i)
                },
            final(self)@ == sync_transition(
                old(self)@,
                final(self)@.partition_summary,
                span_len(partition_start, partition_end),
                r,
            ),
    {
        let partition_len = partition_end.saturating_sub(partition_start);
        if partition_len == 0 {
            let prev = self.partition_summary;
            self.partition_summary = 0;
            if prev != 0 {
                self.try_unmark_tasks();
            }
            return false;
        }
        let partition_mask: u64 = if partition_len >= 64 {
            u64::MAX
        } else {
            proof {
                let l = partition_len as u64;
                assert(1u64 << l >= 1) by (bit_vector)
                    requires
                        l < 64,
                ;
            }
            ((1u64 << partition_len) - 1) as u64
        };
        proof {
            assert forall|i: u64| i < 64 implies #[trigger] bit_set(partition_mask, i) == (i
                < partition_len) by {
                if partition_len >= 64 {
                    lemma_bit_max(i);
                } else {
                    lemma_bit_low_mask(partition_len as u64, i);
                }
            }
        }
        let mut new_summary: u64 = 0;
        let mut offset: usize = 0;
        proof {
            assert forall|j: u64| j < 64 implies !#[trigger] bit_set(new_summary, j) by {
                lemma_bit_zero(j);
            }
        }
        while offset < partition_len
            invariant
                offset <= partition_len <= 64,
                partition_len == partition_end - partition_start,
                forall|j: u64| j < 64 ==> #[trigger] bit_set(new_summary, j) == (j < offset
                    && leaf_active(leaf_words@, partition_start as int, j as int)),
            decreases partition_len - offset,
        {
            let leaf_idx = partition_start + offset;
            if leaf_idx < leaf_words.len() && leaf_words[leaf_idx] != 0 {
                let ghost old_new = new_summary;
                new_summary = new_summary | (1u64 << offset);
                proof {
                    assert forall|j: u64| j < 64 implies #[trigger] bit_set(new_summary, j) == (j
                        < offset + 1 && leaf_active(leaf_words@, partition_start as int, j as int)) by {
                        lemma_bit_or(old_new, 1u64 << offset, j);
                        lemma_bit_single(offset as u64, j);
                    }
                }
            } else {
                proof {
                    assert forall|j: u64| j < 64 implies #[trigger] bit_set(new_summary, j) == (j
                        < offset + 1 && leaf_active(leaf_words@, partition_start as int, j as int)) by {
                        if j == offset as u64 {
                        }
                    }
                }
            }
            offset = offset + 1;
        }
        let prev = self.partition_summary;
        let prev_masked = prev & partition_mask;
        let desired = (prev & !partition_mask) | new_summary;
        self.partition_summary = desired;
        let had_work = prev_masked != 0;
        let has_work = (desired & partition_mask) != 0;
        proof {
            let words = leaf_words@;
            let start = partition_start as int;
            assert forall|i: u64| i < 64 implies #[trigger] bit_set(desired, i) == if i
                < partition_len {
                leaf_active(words, start, i as int)
            } else {
                bit_set(prev, i)
            } by {
                lemma_bit_or(prev & !partition_mask, new_summary, i);
                lemma_bit_and(prev, !partition_mask, i);
                lemma_bit_not(partition_mask, i);
            }
            lemma_zero_iff_no_bit(prev_masked);
            if had_work {
                let i = choose|i: u64| i < 64 && bit_set(prev_masked, i);
                lemma_bit_and(prev, partition_mask, i);
                assert(bit_set(prev, i) && i < partition_len);
                assert(any_bit_below(prev, partition_len as int));
            } else {
                assert forall|i: u64| i < partition_len implies !#[trigger] bit_set(prev, i) by {
                    lemma_bit_and(prev, partition_mask, i);
                }
            }
            let dm = desired & partition_mask;
            lemma_zero_iff_no_bit(dm);
            if has_work {
                let i = choose|i: u64| i < 64 && bit_set(dm, i);
                lemma_bit_and(desired, partition_mask, i);
                assert(leaf_active(words, start, i as int));
            } else {
                assert forall|i: int| 0 <= i < partition_len implies !#[trigger] leaf_active(
                    words,
                    start,
                    i,
                ) by {
                    if leaf_active(words, start, i) {
                        lemma_bit_and(desired, partition_mask, i as u64);
                        assert(bit_set(desired, i as u64));
                        assert(bit_set(dm, i as u64));
                    }
                }
            }
        }
        if has_work && !had_work {
            self.mark_tasks();
        } else if !has_work && had_work {
            self.try_unmark_tasks();
        }
        has_work
    }

    /// The partition summary: bit `i` is set while leaf `i` of the partition holds work.
    pub fn partition_summary(&self) -> (r: u64)
        ensures
            r == self@.partition_summary,
    {
        self.partition_summary
    }

    /// Whether the partition summary shows work in local leaf `local_leaf_idx`.
    pub fn partition_leaf_has_work(&self, local_leaf_idx: usize) -> (r: bool)
        requires
            local_leaf_idx < 64,
        ensures
            r == bit_set(self@.partition_summary, local_leaf_idx as u64),
    {
        let summary = self.partition_summary;
        let r = summary & (1u64 << local_leaf_idx) != 0;
        proof {
            let k = local_leaf_idx as u64;
            assert(k < 64 ==> ((summary & (1u64 << k) != 0) == ((summary >> k) & 1u64 == 1u64)))
                by (bit_vector);
        }
        r
    }

    /// Records local leaf `local_leaf_idx` as active; when the partition was empty
    /// before, raises the partition flag and returns `true`.
    pub fn mark_partition_leaf_active(&mut self, local_leaf_idx: usize) -> (r: bool)
        requires
            local_leaf_idx < 64,
        ensures
            r == (old(self)@.partition_summary == 0),
            final(self)@ == leaf_marked_active(old(self)@, local_leaf_idx as u64),
    {
        let mask = 1u64 << local_leaf_idx;
        let old_summary = self.partition_summary;
        self.partition_summary = old_summary | mask;
        if old_summary == 0 {
            self.mark_tasks();
            true
        } else {
            false
        }
    }

    /// Records local leaf `local_leaf_idx` as empty; when it was the last active leaf,
    /// withdraws the partition flag.
    pub fn clear_partition_leaf(&mut self, local_leaf_idx: usize)
        requires
            local_leaf_idx < 64,
        ensures
            final(self)@ == leaf_cleared(old(self)@, local_leaf_idx as u64),
    {
        let bit = 1u64 << local_leaf_idx;
        let old_summary = self.partition_summary;
        self.partition_summary = old_summary & !bit;
        if (old_summary & bit) != 0 && (old_summary & !bit) == 0 {
            self.try_unmark_tasks();
        }
    }
}

} // verus!
