use vstd::prelude::*;

use crate::seqs::{
    count_some, lemma_count_some_bound, lemma_count_some_none, lemma_count_some_pos,
    lemma_count_some_push, lemma_count_some_update, some_ind,
};

verus! {

/// Errors of timer wheel operations.
#[derive(Debug, Clone, PartialEq, Eq, Structural)]
pub enum TimerWheelError {
    /// Timer ID exceeds maximum supported value
    InvalidTimerId,
    /// Timer deadline is invalid (zero, in the past, or overflow)
    InvalidDeadline,
    /// Timer deadline exceeds maximum supported duration
    DeadlineTooFar,
    /// Capacity limit exceeded
    CapacityExceeded,
    /// Integer overflow in calculations
    Overflow,
    /// Timer ID does not correspond to a valid timer
    TimerNotFound,
}

/// When and how spokes are compacted.
#[derive(Debug, Clone)]
pub struct CompactionConfig {
    /// Minimum spoke capacity before compaction is considered
    pub min_capacity_for_compaction: usize,
    /// Compact when active entries < capacity / compaction_ratio
    pub compaction_ratio: usize,
    /// Target capacity after compaction (as multiple of active entries)
    pub target_capacity_multiplier: usize,
}

/// Whether `count` active timers keep the compaction arithmetic of `config` in range.
pub open spec fn wheel_room(count: int, config: CompactionConfig) -> bool {
    &&& count * config.compaction_ratio <= usize::MAX / 2
    &&& count * config.target_capacity_multiplier <= usize::MAX / 2
}

impl CompactionConfig {
    /// Bounds under which compaction arithmetic stays in range.
    pub open spec fn wf(&self) -> bool {
        &&& 1 <= self.target_capacity_multiplier
        &&& self.min_capacity_for_compaction <= usize::MAX / 2
    }

    /// The default configuration: compact spokes of at least 64 slots that are less
    /// than a quarter used, down to twice their active count.
    pub fn default() -> (c: Self)
        ensures
            c.min_capacity_for_compaction == 64,
            c.compaction_ratio == 4,
            c.target_capacity_multiplier == 2,
    {
        CompactionConfig {
            min_capacity_for_compaction: 64,
            compaction_ratio: 4,
            target_capacity_multiplier: 2,
        }
    }
}

/// A timer stored in a spoke.
pub struct TimerEntry<T> {
    /// Absolute deadline in nanoseconds
    pub deadline_ns: u64,
    /// Slot index within the spoke
    pub slot_index: u32,
    /// Generation of the spoke when the entry was stored
    pub generation: u32,
    /// User data of the timer
    pub data: T,
}

/// The active entries of `s`, in slot order.
pub open spec fn live_entries<T>(s: Seq<Option<TimerEntry<T>>>) -> Seq<TimerEntry<T>>
    decreases s.len(),
{
    if s.len() == 0 {
        Seq::empty()
    } else {
        let r = live_entries(s.drop_last());
        if s.last() is Some {
            r.push(s.last()->0)
        } else {
            r
        }
    }
}

pub proof fn lemma_live_len<T>(s: Seq<Option<TimerEntry<T>>>)
    ensures
        live_entries(s).len() == count_some(s),
    decreases s.len(),
{
    if s.len() > 0 {
        lemma_live_len(s.drop_last());
    }
}

/// Every live entry is the value of some active slot.
pub proof fn lemma_live_from<T>(s: Seq<Option<TimerEntry<T>>>, k: int)
    requires
        0 <= k < live_entries(s).len(),
    ensures
        exists|j: int| 0 <= j < s.len() && s[j] == Some(#[trigger] live_entries(s)[k]),
    decreases s.len(),
{
    let r = live_entries(s.drop_last());
    if k < r.len() {
        lemma_live_from(s.drop_last(), k);
        let j = choose|j: int| 0 <= j < s.drop_last().len() && s.drop_last()[j] == Some(r[k]);
        assert(s[j] == Some(live_entries(s)[k]));
    } else {
        assert(s[s.len() - 1] == Some(live_entries(s)[k]));
    }
}

pub proof fn lemma_live_push<T>(s: Seq<Option<TimerEntry<T>>>, x: Option<TimerEntry<T>>)
    ensures
        live_entries(s.push(x)) == if x is Some {
            live_entries(s).push(x->0)
        } else {
            live_entries(s)
        },
{
    assert(s.push(x).drop_last() =~= s);
}

/// The compacted slots: the live entries, renumbered and stamped with `generation`.
pub open spec fn compacted<T>(s: Seq<Option<TimerEntry<T>>>, generation: u32) -> Seq<
    Option<TimerEntry<T>>,
> {
    Seq::new(
        live_entries(s).len(),
        |k: int|
            Some(
                TimerEntry {
                    slot_index: k as u32,
                    generation,
                    ..live_entries(s)[k]
                },
            ),
    )
}

/// A bucket of timers that hash to the same tick. Free slots are kept on a stack.
pub struct Spoke<T> {
    entries: Vec<Option<TimerEntry<T>>>,
    free_list: Vec<usize>,
    active_count: usize,
    generation: u32,
}

/// The abstract state of a spoke.
/// A spoke as `Spoke::new` makes it: `cap` free slots, handed out from slot 0 up,
/// no timer and generation 0.
pub open spec fn fresh_spoke<T>(cap: usize) -> SpokeState<T> {
    SpokeState {
        entries: Seq::new(cap as nat, |k: int| None::<TimerEntry<T>>),
        free_list: Seq::new(cap as nat, |k: int| (cap - 1 - k) as usize),
        active_count: 0,
        generation: 0,
    }
}

pub struct SpokeState<T> {
    pub entries: Seq<Option<TimerEntry<T>>>,
    pub free_list: Seq<usize>,
    pub active_count: usize,
    pub generation: u32,
}

impl<T> View for Spoke<T> {
    type V = SpokeState<T>;

    closed spec fn view(&self) -> SpokeState<T> {
        SpokeState {
            entries: self.entries@,
            free_list: self.free_list@,
            active_count: self.active_count,
            generation: self.generation,
        }
    }
}

impl<T> SpokeState<T> {
    /// The spoke's internal consistency: the free list holds distinct empty slots, the
    /// active count counts the occupied ones, and every occupied slot carries the
    /// spoke's generation.
    pub open spec fn wf(&self) -> bool {
        &&& self.active_count == count_some(self.entries)
        &&& self.active_count + self.free_list.len() == self.entries.len()
        &&& forall|i: int|
            0 <= i < self.free_list.len() ==> #[trigger] self.free_list[i] < self.entries.len()
                && self.entries[self.free_list[i] as int] is None
        &&& forall|i: int, j: int|
            0 <= i < j < self.free_list.len() ==> #[trigger] self.free_list[i]
                != #[trigger] self.free_list[j]
        &&& forall|k: int|
            0 <= k < self.entries.len() && #[trigger] self.entries[k] is Some
                ==> self.entries[k]->0.generation == self.generation
    }
}

impl<T> Spoke<T> {
    /// A spoke of `initial_capacity` free slots; slot 0 is handed out first.
    pub fn new(initial_capacity: usize) -> (s: Self)
        requires
        ensures
            s@.wf(),
            s@.entries == Seq::new(initial_capacity as nat, |k: int| None::<TimerEntry<T>>),
            s@.free_list == Seq::new(initial_capacity as nat, |k: int| (initial_capacity - 1 - k) as usize),
            s@.active_count == 0,
            s@.generation == 0,
    {
        let mut entries: Vec<Option<TimerEntry<T>>> = Vec::with_capacity(initial_capacity);
        let mut i: usize = 0;
        while i < initial_capacity
            invariant
                i <= initial_capacity,
                entries@ == Seq::new(i as nat, |k: int| None::<TimerEntry<T>>),
            decreases initial_capacity - i,
        {
            entries.push(None);
            i = i + 1;
        }
        let mut free_list: Vec<usize> = Vec::with_capacity(initial_capacity);
        let mut j: usize = initial_capacity;
        while j > 0
            invariant
                j <= initial_capacity,
                free_list@ == Seq::new((initial_capacity - j) as nat, |k: int| (initial_capacity - 1 - k) as usize),
            decreases j,
        {
            j = j - 1;
            free_list.push(j);
            proof {
                assert(free_list@ =~= Seq::new((initial_capacity - j) as nat, |k: int| (initial_capacity - 1 - k) as usize));
            }
        }
        proof {
            lemma_count_some_none::<TimerEntry<T>>(initial_capacity as nat);
        }
        Spoke { entries, free_list, active_count: 0, generation: 0 }
    }

    /// Stores a timer in the most recently freed slot, or in a new slot when none is
    /// free, and returns the slot.
    pub fn insert(&mut self, deadline_ns: u64, data: T) -> (slot: usize)
        requires
            old(self)@.wf(),
            old(self)@.active_count < usize::MAX,
        ensures
            final(self)@.wf(),
            slot == insert_slot(old(self)@),
            final(self)@ == spoke_inserted(old(self)@, deadline_ns, data),
    {
        let slot_index = if let Some(idx) = self.free_list.pop() {
            idx
        } else {
            let new_idx = self.entries.len();
            self.entries.push(None);
            proof {
                lemma_count_some_push(old(self)@.entries, None);
            }
            new_idx
        };
        let ghost mid = self.entries@;
        self.entries.set(
            slot_index,
            Some(
                TimerEntry {
                    deadline_ns,
                    slot_index: #[verifier::truncate] (slot_index as u32),
                    generation: self.generation,
                    data,
                },
            ),
        );
        self.active_count = self.active_count + 1;
        proof {
            lemma_count_some_update(mid, slot_index as int, self.entries@[slot_index as int]);
            let o = old(self)@;
            if o.free_list.len() == 0 {
                assert(self.entries@ =~= o.entries.push(self.entries@[slot_index as int]));
            }
            if o.free_list.len() > 0 {
                assert forall|i: int| 0 <= i < self.free_list@.len() implies #[trigger] self.free_list@[i] < self.entries@.len()
                    && self.entries@[self.free_list@[i] as int] is None by {
                    assert(o.free_list[i] != o.free_list[o.free_list.len() - 1]);
                }
            }
        }
        slot_index
    }

    /// Removes the timer in `slot_index` when its generation is `expected_generation`,
    /// returning its data; otherwise changes nothing and returns `None`.
    pub fn remove(&mut self, slot_index: usize, expected_generation: u32) -> (r: Option<T>)
        requires
            old(self)@.wf(),
        ensures
            final(self)@.wf(),
            ({
                let o = old(self)@;
                let hit = slot_index < o.entries.len() && o.entries[slot_index as int] is Some
                    && o.entries[slot_index as int]->0.generation == expected_generation;
                if hit {
                    &&& r == Some(o.entries[slot_index as int]->0.data)
                    &&& final(self)@ == spoke_freed(o, slot_index)
                } else {
                    r is None && final(self)@ == o
                }
            }),
    {
        if slot_index >= self.entries.len() {
            return None;
        }
        let mut taken: Option<TimerEntry<T>> = None;
        self.entries.set_and_swap(slot_index, &mut taken);
        match taken {
            Some(entry) => {
                if entry.generation == expected_generation {
                    self.free_list.push(slot_index);
                    proof {
                        lemma_count_some_update(old(self)@.entries, slot_index as int, None);
                        lemma_count_some_pos(old(self)@.entries, slot_index as int);
                    }
                    self.active_count = self.active_count - 1;
                    proof {
                        self.lemma_freed_wf(old(self)@, slot_index);
                    }
                    Some(entry.data)
                } else {
                    self.entries.set(slot_index, Some(entry));
                    proof {
                        assert(self.entries@ =~= old(self)@.entries);
                    }
                    None
                }
            },
            None => {
                proof {
                    assert(self.entries@ =~= old(self)@.entries);
                }
                None
            },
        }
    }

    proof fn lemma_freed_wf(&self, o: SpokeState<T>, slot: usize)
        requires
            o.wf(),
            slot < o.entries.len(),
            o.entries[slot as int] is Some,
            self@ == spoke_freed(o, slot),
        ensures
            self@.wf(),
    {
        lemma_count_some_update(o.entries, slot as int, None);
        let s = self@;
        assert forall|i: int, j: int| 0 <= i < j < s.free_list.len() implies #[trigger] s.free_list[i]
            != #[trigger] s.free_list[j] by {
            if j == s.free_list.len() - 1 {
                assert(o.entries[o.free_list[i] as int] is None);
            }
        }
        assert forall|i: int| 0 <= i < s.free_list.len() implies #[trigger] s.free_list[i] < s.entries.len()
            && s.entries[s.free_list[i] as int] is None by {
            if i < o.free_list.len() {
                assert(o.free_list[i] < o.entries.len());
            }
        }
    }

    /// Removes the timer in `slot_index`, whatever its generation, returning its
    /// deadline and data.
    pub fn remove_unchecked(&mut self, slot_index: usize) -> (r: Option<(u64, T)>)
        requires
            old(self)@.wf(),
            slot_index < old(self)@.entries.len(),
        ensures
            final(self)@.wf(),
            ({
                let o = old(self)@;
                if o.entries[slot_index as int] is Some {
                    &&& r == Some(
                        (
                            o.entries[slot_index as int]->0.deadline_ns,
                            o.entries[slot_index as int]->0.data,
                        ),
                    )
                    &&& final(self)@ == spoke_freed(o, slot_index)
                } else {
                    r is None && final(self)@ == o
                }
            }),
    {
        let mut taken: Option<TimerEntry<T>> = None;
        self.entries.set_and_swap(slot_index, &mut taken);
        match taken {
            Some(entry) => {
                self.free_list.push(slot_index);
                proof {
                    lemma_count_some_update(old(self)@.entries, slot_index as int, None);
                    lemma_count_some_pos(old(self)@.entries, slot_index as int);
                }
                self.active_count = self.active_count - 1;
                proof {
                    self.lemma_freed_wf(old(self)@, slot_index);
                }
                Some((entry.deadline_ns, entry.data))
            },
            None => {
                proof {
                    assert(self.entries@ =~= old(self)@.entries);
                }
                None
            },
        }
    }

    /// Whether the spoke is large enough and sparse enough to compact.
    pub fn should_compact(&self, config: &CompactionConfig) -> (r: bool)
        requires
            self@.wf(),
            config.wf(),
            self@.active_count * config.compaction_ratio <= usize::MAX,
        ensures
            r == (self@.entries.len() >= config.min_capacity_for_compaction
                && self@.active_count * config.compaction_ratio < self@.entries.len()),
    {
        let capacity = self.entries.len();
        capacity >= config.min_capacity_for_compaction && self.active_count * config.compaction_ratio
            < capacity
    }

    /// Moves the active timers to the front in slot order, renumbering their slots and
    /// stamping them with the next generation (which invalidates outstanding timer ids),
    /// and resizes the spoke; returns the (old slot, new slot) pairs. An empty spoke is
    /// reset to no slots at all.
    pub fn compact(&mut self, config: &CompactionConfig) -> (remap: Vec<(usize, usize)>)
        requires
            old(self)@.wf(),
            config.wf(),
            wheel_room(old(self)@.active_count as int, *config),
        ensures
            final(self)@.wf(),
            final(self)@ == spoke_compacted(old(self)@, *config),
            remap_ok(remap@, live_entries(old(self)@.entries), old(self)@.entries, old(self)@.entries.len() as int),
    {
        proof {
            lemma_live_len(self.entries@);
        }
        if self.active_count == 0 {
            self.entries.clear();
            self.free_list.clear();
            self.generation = self.generation.wrapping_add(1);
            proof {
                lemma_count_some_none::<TimerEntry<T>>(0);
                assert(self.entries@ =~= Seq::new(0, |k: int| None::<TimerEntry<T>>));
                assert(self.entries@ =~= Seq::empty());
                assert(self.free_list@ =~= Seq::empty());
            }
            return Vec::new();
        }
        let want = self.active_count * config.target_capacity_multiplier;
        let floor = if want > config.min_capacity_for_compaction {
            want
        } else {
            config.min_capacity_for_compaction
        };
        proof {
            assert(self.active_count * config.target_capacity_multiplier >= self.active_count) by (nonlinear_arith)
                requires
                    config.target_capacity_multiplier >= 1,
            ;
        }
        let target_capacity = next_power_of_two(floor);
        let ghost old_entries = self.entries@;
        let mut active_entries: Vec<TimerEntry<T>> = Vec::with_capacity(self.active_count);
        let mut slot_remapping: Vec<(usize, usize)> = Vec::new();
        let n = self.entries.len();
        let mut old_idx: usize = 0;
        while old_idx < n
            invariant
                n == old_entries.len(),
                old_entries == old(self)@.entries,
                self.active_count == old(self)@.active_count,
                self.generation == old(self)@.generation,
                old(self)@.wf(),
                self.entries@.len() == n,
                old_idx <= n,
                forall|k: int| old_idx <= k < n ==> #[trigger] self.entries@[k] == old_entries[k],
                active_entries@ == live_entries(old_entries.take(old_idx as int)),
                remap_ok(slot_remapping@, active_entries@, old_entries, old_idx as int),
            decreases n - old_idx,
        {
            let mut taken: Option<TimerEntry<T>> = None;
            self.entries.set_and_swap(old_idx, &mut taken);
            proof {
                assert(old_entries.take(old_idx + 1) =~= old_entries.take(old_idx as int).push(
                    old_entries[old_idx as int],
                ));
                lemma_live_push(old_entries.take(old_idx as int), old_entries[old_idx as int]);
            }
            assert(taken == old_entries[old_idx as int]);
            let ghost prev_remap = slot_remapping@;
            let ghost prev_active = active_entries@;
            if let Some(entry) = taken {
                assert(old_entries[old_idx as int] == Some(entry));
                let new_idx = active_entries.len();
                slot_remapping.push((old_idx, new_idx));
                active_entries.push(entry);
                proof {
                    assert forall|k: int|
                        0 <= k < slot_remapping@.len() implies #[trigger] remap_at(
                            slot_remapping@,
                            active_entries@,
                            old_entries,
                            old_idx + 1,
                            k,
                        ) by {
                        if k == slot_remapping@.len() - 1 {
                        } else {
                            assert(remap_at(prev_remap, prev_active, old_entries, old_idx as int, k));
                            assert(slot_remapping@[k] == prev_remap[k]);
                            assert(active_entries@[k] == prev_active[k]);
                        }
                    }
                }
            } else {
                proof {
                    assert forall|k: int|
                        0 <= k < slot_remapping@.len() implies #[trigger] remap_at(
                            slot_remapping@,
                            active_entries@,
                            old_entries,
                            old_idx + 1,
                            k,
                        ) by {
                        assert(remap_at(slot_remapping@, active_entries@, old_entries, old_idx as int, k));
                    }
                }
            }
            old_idx = old_idx + 1;
        }
        proof {
            assert(old_entries.take(n as int) =~= old_entries);
            assert(active_entries@ == live_entries(old_entries));
            assert(active_entries@.len() == self.active_count);
        }
        self.generation = self.generation.wrapping_add(1);
        self.entries.clear();
        let count = active_entries.len();
        let ghost live = active_entries@;
        let mut reversed: Vec<TimerEntry<T>> = Vec::new();
        while active_entries.len() > 0
            invariant
                reversed@.len() + active_entries@.len() == count,
                active_entries@ == live.take(active_entries@.len() as int),
                forall|k: int| 0 <= k < reversed@.len() ==> #[trigger] reversed@[k] == live[count - 1 - k],
                count == live.len(),
            decreases active_entries@.len(),
        {
            let e = active_entries.pop().unwrap();
            reversed.push(e);
            proof {
                assert(active_entries@ =~= live.take(active_entries@.len() as int));
            }
        }
        while reversed.len() > 0
            invariant
                self.active_count == old(self)@.active_count,
                self.generation == old(self)@.generation.wrapping_add(1),
                reversed@.len() + self.entries@.len() == count,
                count == live.len(),
                forall|k: int| 0 <= k < reversed@.len() ==> #[trigger] reversed@[k] == live[count - 1 - k],
                forall|k: int|
                    0 <= k < self.entries@.len() ==> #[trigger] self.entries@[k] == Some(
                        TimerEntry { slot_index: k as u32, generation: self.generation, ..live[k] },
                    ),
            decreases reversed@.len(),
        {
            let mut entry = reversed.pop().unwrap();
            let new_idx = self.entries.len();
            entry.slot_index = #[verifier::truncate] (new_idx as u32);
            entry.generation = self.generation;
            self.entries.push(Some(entry));
        }
        while self.entries.len() < target_capacity
            invariant
                self.active_count == old(self)@.active_count,
                self.generation == old(self)@.generation.wrapping_add(1),
                count <= self.entries@.len() <= target_capacity,
                count == live.len(),
                forall|k: int|
                    0 <= k < count ==> #[trigger] self.entries@[k] == Some(
                        TimerEntry { slot_index: k as u32, generation: self.generation, ..live[k] },
                    ),
                forall|k: int| count <= k < self.entries@.len() ==> #[trigger] self.entries@[k] is None,
            decreases target_capacity - self.entries@.len(),
        {
            self.entries.push(None);
        }
        self.free_list.clear();
        let ghost final_entries = self.entries@;
        let mut i: usize = target_capacity;
        while i > count
            invariant
                self.entries@ == final_entries,
                self.active_count == old(self)@.active_count,
                self.generation == old(self)@.generation.wrapping_add(1),
                count <= i <= target_capacity,
                self.free_list@ == Seq::new((target_capacity - i) as nat, |k: int| (target_capacity - 1 - k) as usize),
            decreases i,
        {
            i = i - 1;
            self.free_list.push(i);
            proof {
                assert(self.free_list@ =~= Seq::new((target_capacity - i) as nat, |k: int| (target_capacity - 1 - k) as usize));
            }
        }
        proof {
            let g = self.generation;
            let pad = Seq::new((target_capacity - count) as nat, |k: int| None::<TimerEntry<T>>);
            assert(live == live_entries(old_entries));
            assert(self.entries@.len() == target_capacity);
            assert forall|k: int| 0 <= k < self.entries@.len() implies #[trigger] self.entries@[k] == (compacted(old_entries, g) + pad)[k] by {
                if k < count {
                } else {
                }
            }
            assert(self.entries@ =~= compacted(old_entries, g) + pad);
            assert(self.free_list@ =~= Seq::new((target_capacity - count) as nat, |k: int| (target_capacity - 1 - k) as usize));
            lemma_count_compacted(old_entries, g, (target_capacity - count) as nat);
            assert forall|k: int| 0 <= k < self.entries@.len() && #[trigger] self.entries@[k] is Some implies self.entries@[k]->0.generation == self.generation by {}
        }
        slot_remapping
    }

    /// Drops every slot; the generation is kept.
    fn reset(&mut self)
        ensures
            final(self)@ == (SpokeState::<T> {
                entries: Seq::empty(),
                free_list: Seq::empty(),
                active_count: 0,
                generation: old(self)@.generation,
            }),
    {
        self.entries.clear();
        self.free_list.clear();
        self.active_count = 0;
    }

    /// The spoke's generation.
    pub fn generation(&self) -> (r: u32)
        ensures
            r == self@.generation,
    {
        self.generation
    }

    /// The number of slots.
    pub fn capacity(&self) -> (r: usize)
        ensures
            r == self@.entries.len(),
    {
        self.entries.len()
    }

    /// The number of active timers.
    pub fn active_count(&self) -> (r: usize)
        ensures
            r == self@.active_count,
    {
        self.active_count
    }
}

/// Each pair `(old, new)` of `remap` has `new` equal to its position and `old < bound`
/// an occupied slot of `entries` holding `live[new]`.
pub open spec fn remap_ok<T>(
    remap: Seq<(usize, usize)>,
    live: Seq<TimerEntry<T>>,
    entries: Seq<Option<TimerEntry<T>>>,
    bound: int,
) -> bool {
    &&& remap.len() == live.len()
    &&& forall|k: int| 0 <= k < remap.len() ==> #[trigger] remap_at(remap, live, entries, bound, k)
}

pub open spec fn remap_at<T>(
    remap: Seq<(usize, usize)>,
    live: Seq<TimerEntry<T>>,
    entries: Seq<Option<TimerEntry<T>>>,
    bound: int,
    k: int,
) -> bool {
    remap[k].1 == k && remap[k].0 < bound && entries[remap[k].0 as int] === Some(live[k])
}

/// The smallest power of two, starting from `p` and doubling, that is at least `x`.
pub open spec fn pow2_at_least(x: int, p: int) -> int
    decreases (if p < x {
        x - p
    } else {
        0
    }) as nat,
{
    if p >= x || p < 1 {
        p
    } else {
        pow2_at_least(x, 2 * p)
    }
}

/// The smallest power of two that is at least `x` (1 for `x <= 1`).
pub open spec fn next_pow2_spec(x: int) -> int {
    pow2_at_least(x, 1)
}

/// Whether `n` is a power of two.
pub open spec fn is_pow2(n: int) -> bool {
    exists|k: nat| vstd::arithmetic::power2::pow2(k) == n
}

/// The smallest power of two that is at least `x`.
pub fn next_power_of_two(x: usize) -> (r: usize)
    requires
        x <= usize::MAX / 2 + 1,
    ensures
        r == next_pow2_spec(x as int),
        is_pow2(r as int),
        r >= x,
        r >= 1,
{
    let mut p: usize = 1;
    let ghost mut k: nat = 0;
    proof {
        vstd::arithmetic::power2::lemma2_to64();
    }
    while p < x
        invariant
            p >= 1,
            vstd::arithmetic::power2::pow2(k) == p,
            pow2_at_least(x as int, p as int) == next_pow2_spec(x as int),
            x <= usize::MAX / 2 + 1,
        decreases usize::MAX - p,
    {
        p = p * 2;
        proof {
            vstd::arithmetic::power2::lemma_pow2_unfold(k + 1);
            k = k + 1;
        }
    }
    p
}

proof fn lemma_count_all_some<T>(s: Seq<Option<TimerEntry<T>>>)
    requires
        forall|k: int| 0 <= k < s.len() ==> #[trigger] s[k] is Some,
    ensures
        count_some(s) == s.len(),
    decreases s.len(),
{
    if s.len() > 0 {
        lemma_count_all_some(s.drop_last());
    }
}

proof fn lemma_count_append_none<T>(s: Seq<Option<TimerEntry<T>>>, n: nat)
    ensures
        count_some(s + Seq::new(n, |k: int| None::<TimerEntry<T>>)) == count_some(s),
    decreases n,
{
    if n > 0 {
        lemma_count_append_none(s, (n - 1) as nat);
        assert((s + Seq::new(n, |k: int| None::<TimerEntry<T>>)).drop_last() =~= s + Seq::new(
            (n - 1) as nat,
            |k: int| None::<TimerEntry<T>>,
        ));
    }
}

proof fn lemma_count_compacted<T>(s: Seq<Option<TimerEntry<T>>>, g: u32, n: nat)
    ensures
        count_some(compacted(s, g) + Seq::new(n, |k: int| None::<TimerEntry<T>>)) == count_some(s),
{
    lemma_live_len(s);
    lemma_count_all_some(compacted(s, g));
    lemma_count_append_none(compacted(s, g), n);
}

/// The slot an insertion uses: the most recently freed one, or a new one.
pub open spec fn insert_slot<T>(o: SpokeState<T>) -> usize {
    if o.free_list.len() > 0 {
        o.free_list.last()
    } else {
        o.entries.len() as usize
    }
}

/// The spoke after a timer is inserted.
pub open spec fn spoke_inserted<T>(o: SpokeState<T>, deadline_ns: u64, data: T) -> SpokeState<T> {
    let slot = insert_slot(o);
    let e = Some(TimerEntry { deadline_ns, slot_index: slot as u32, generation: o.generation, data });
    if o.free_list.len() > 0 {
        SpokeState {
            entries: o.entries.update(slot as int, e),
            free_list: o.free_list.drop_last(),
            active_count: (o.active_count + 1) as usize,
            generation: o.generation,
        }
    } else {
        SpokeState {
            entries: o.entries.push(e),
            free_list: o.free_list,
            active_count: (o.active_count + 1) as usize,
            generation: o.generation,
        }
    }
}

/// The size a compaction gives a spoke with `active` timers.
pub open spec fn compaction_target(active: int, config: CompactionConfig) -> int {
    next_pow2_spec(
        vstd::math::max(active * config.target_capacity_multiplier, config.min_capacity_for_compaction as int),
    )
}

/// The spoke after compaction.
pub open spec fn spoke_compacted<T>(o: SpokeState<T>, config: CompactionConfig) -> SpokeState<T> {
    let g = o.generation.wrapping_add(1);
    if o.active_count == 0 {
        SpokeState { entries: Seq::empty(), free_list: Seq::empty(), active_count: 0, generation: g }
    } else {
        let target = compaction_target(o.active_count as int, config);
        SpokeState {
            entries: compacted(o.entries, g) + Seq::new(
                (target - o.active_count) as nat,
                |k: int| None::<TimerEntry<T>>,
            ),
            free_list: Seq::new(
                (target - o.active_count) as nat,
                |k: int| (target - 1 - k) as usize,
            ),
            active_count: o.active_count,
            generation: g,
        }
    }
}

/// The spoke after slot `slot` is freed.
pub open spec fn spoke_freed<T>(o: SpokeState<T>, slot: usize) -> SpokeState<T> {
    SpokeState {
        entries: o.entries.update(slot as int, None),
        free_list: o.free_list.push(slot),
        active_count: (o.active_count - 1) as usize,
        generation: o.generation,
    }
}

/// `x & (n - 1) == x % n` for a power of two `n`.
pub proof fn lemma_mask_is_mod(x: usize, n: usize)
    requires
        is_pow2(n as int),
    ensures
        n >= 1,
        x & ((n - 1) as usize) == x % n,
{
    let k = choose|k: nat| vstd::arithmetic::power2::pow2(k) == n;
    vstd::arithmetic::power2::lemma_pow2_pos(k);
    vstd::arithmetic::power2::lemma2_to64();
    if k >= usize::BITS {
        if usize::BITS == 32 {
            if k > 32 {
                vstd::arithmetic::power2::lemma_pow2_strictly_increases(32, k);
            }
        } else {
            if k > 64 {
                vstd::arithmetic::power2::lemma_pow2_strictly_increases(64, k);
            }
        }
        assert(false);
    }
    vstd::bits::lemma_usize_low_bits_mask_is_mod(x, k);
}

/// Position of spoke `i` in a scan of `n` spokes that starts at `p`.
pub open spec fn scan_offset(i: int, p: int, n: int) -> int {
    (i + n - p % n) % n
}

proof fn lemma_scan_offset(p: int, o: int, n: int)
    requires
        n > 0,
        p >= 0,
        0 <= o < n,
    ensures
        0 <= (p + o) % n < n,
        scan_offset((p + o) % n, p, n) == o,
{
    let a = p % n;
    vstd::arithmetic::div_mod::lemma_add_mod_noop(p, o, n);
    vstd::arithmetic::div_mod::lemma_small_mod(o as nat, n as nat);
    assert((a + o) % n == (p + o) % n);
    crate::partition::lemma_mod_wrap(a + o, n);
    let s = (p + o) % n;
    if a + o < n {
        assert(s + n - a == o + n);
        crate::partition::lemma_mod_wrap(o + n, n);
    } else {
        assert(s + n - a == o);
    }
}

proof fn lemma_scan_offset_inverse(i: int, p: int, n: int)
    requires
        n > 0,
        p >= 0,
        0 <= i < n,
    ensures
        0 <= scan_offset(i, p, n) < n,
        (p + scan_offset(i, p, n)) % n == i,
{
    let a = p % n;
    crate::partition::lemma_mod_wrap(i + n - a, n);
    let s = scan_offset(i, p, n);
    vstd::arithmetic::div_mod::lemma_add_mod_noop(p, s, n);
    vstd::arithmetic::div_mod::lemma_small_mod(s as nat, n as nat);
    crate::partition::lemma_mod_wrap(a + s, n);
}

/// The active count of every spoke.
pub open spec fn active_counts<T>(spokes: Seq<SpokeState<T>>) -> Seq<nat> {
    spokes.map_values(|s: SpokeState<T>| s.active_count as nat)
}

proof fn lemma_counts_update<T>(spokes: Seq<SpokeState<T>>, i: int, x: SpokeState<T>)
    requires
        0 <= i < spokes.len(),
    ensures
        crate::seqs::sum_nat(active_counts(spokes.update(i, x))) == crate::seqs::sum_nat(
            active_counts(spokes),
        ) - spokes[i].active_count + x.active_count,
        crate::seqs::sum_nat(active_counts(spokes)) >= spokes[i].active_count,
{
    assert(active_counts(spokes.update(i, x)) =~= active_counts(spokes).update(i, x.active_count as nat));
    crate::seqs::lemma_sum_nat_update(active_counts(spokes), i, x.active_count as nat);
    crate::seqs::lemma_sum_nat_ge(active_counts(spokes), i);
}

/// The slot capacity of every spoke.
pub open spec fn slot_capacities<T>(spokes: Seq<SpokeState<T>>) -> Seq<nat> {
    spokes.map_values(|s: SpokeState<T>| s.entries.len())
}

/// Occupancy of a wheel: its spokes, their slots and the active timers.
#[derive(Debug, Clone, Copy)]
pub struct WheelMemoryStats {
    pub num_spokes: usize,
    pub total_slot_capacity: usize,
    pub active_timers: usize,
}

/// Sentinel for "no cached deadline".
pub const NULL_DEADLINE: u64 = u64::MAX;

/// A single-level timing wheel of `num_spokes` spokes (a power of two), each holding
/// the timers whose tick, relative to the start time, hashes to it.
pub struct SingleWheel<T> {
    spokes: Vec<Spoke<T>>,
    num_spokes: usize,
    spoke_mask: usize,
    tick_resolution_ns: u64,
    tick_shift: u32,
    current_tick: u64,
    timer_count: u64,
    cached_next_deadline: u64,
    start_time_ns: u64,
    compaction_config: CompactionConfig,
}

/// The abstract state of a single-level wheel.
pub struct WheelState<T> {
    pub spokes: Seq<SpokeState<T>>,
    pub num_spokes: usize,
    pub tick_resolution_ns: u64,
    pub tick_shift: u32,
    pub current_tick: u64,
    pub timer_count: u64,
    pub cached_next_deadline: u64,
    pub start_time_ns: u64,
    pub config: CompactionConfig,
}

impl<T> WheelState<T> {
    /// The wheel's consistency: every spoke is consistent and the timer count is the
    /// sum of the spokes' active counts.
    pub open spec fn wf(&self) -> bool {
        &&& self.spokes.len() == self.num_spokes
        &&& is_pow2(self.num_spokes as int)
        &&& self.tick_shift < 64
        &&& forall|i: int| 0 <= i < self.spokes.len() ==> (#[trigger] self.spokes[i]).wf()
        &&& self.timer_count == crate::seqs::sum_nat(active_counts(self.spokes))
        &&& self.config.wf()
        &&& wheel_room(self.timer_count as int, self.config)
    }

    /// The spoke a deadline hashes to.
    pub open spec fn spoke_of(&self, deadline_ns: u64) -> int {
        let rel: u64 = if deadline_ns > self.start_time_ns {
            (deadline_ns - self.start_time_ns) as u64
        } else {
            0
        };
        ((rel >> self.tick_shift) as usize & ((self.num_spokes - 1) as usize)) as int
    }

    /// Whether some timer of spoke `i` is due at `now_ns`.
    pub open spec fn has_due(&self, i: int, now_ns: u64) -> bool {
        exists|k: int|
            0 <= k < self.spokes[i].entries.len() && #[trigger] self.spokes[i].entries[k] is Some
                && self.spokes[i].entries[k]->0.deadline_ns <= now_ns
    }
}

impl<T> View for SingleWheel<T> {
    type V = WheelState<T>;

    closed spec fn view(&self) -> WheelState<T> {
        WheelState {
            spokes: self.spokes@.map_values(|s: Spoke<T>| s@),
            num_spokes: self.num_spokes,
            tick_resolution_ns: self.tick_resolution_ns,
            tick_shift: self.tick_shift,
            current_tick: self.current_tick,
            timer_count: self.timer_count,
            cached_next_deadline: self.cached_next_deadline,
            start_time_ns: self.start_time_ns,
            config: self.compaction_config,
        }
    }
}

/// Whether `x` is a power of two (as a `u64`).
pub open spec fn is_pow2_u64(x: u64) -> bool {
    is_pow2(x as int)
}

impl<T> SingleWheel<T> {
    /// The wheel's internal consistency.
    pub closed spec fn wf(&self) -> bool {
        &&& self@.wf()
        &&& self.spoke_mask == self.num_spokes - 1
    }

    /// A consistent wheel has a consistent abstract state.
    pub proof fn lemma_wf_view(&self)
        requires
            self.wf(),
        ensures
            self@.wf(),
            self@.num_spokes >= 1,
            self@.tick_shift < 64,
    {
        lemma_mask_is_mod(0, self.num_spokes);
    }

    proof fn lemma_view_spokes(&self)
        ensures
            self@.spokes.len() == self.spokes@.len(),
            forall|i: int| 0 <= i < self.spokes@.len() ==> #[trigger] self@.spokes[i] == self.spokes@[i]@,
    {
    }

    /// A wheel with default spoke capacity and compaction settings.
    pub fn new(tick_resolution_ns: u64, num_spokes: usize) -> (w: Self)
        requires
            is_pow2(num_spokes as int),
            is_pow2(tick_resolution_ns as int),
        ensures
            w.wf(),
            w@.num_spokes == num_spokes,
            w@.tick_resolution_ns == tick_resolution_ns,
            w@.tick_shift == vstd::std_specs::bits::u64_trailing_zeros(tick_resolution_ns),
            w@.timer_count == 0,
            w@.current_tick == 0,
            w@.start_time_ns == 0,
            w@.cached_next_deadline == NULL_DEADLINE,
            w@.config == (CompactionConfig {
                min_capacity_for_compaction: 64,
                compaction_ratio: 4,
                target_capacity_multiplier: 2,
            }),
            forall|i: int| 0 <= i < num_spokes ==> #[trigger] w@.spokes[i] == fresh_spoke::<T>(16),
    {
        Self::with_config(tick_resolution_ns, num_spokes, 16, CompactionConfig::default())
    }

    /// A wheel of `num_spokes` spokes of `initial_spoke_capacity` free slots each.
    pub fn with_config(
        tick_resolution_ns: u64,
        num_spokes: usize,
        initial_spoke_capacity: usize,
        compaction_config: CompactionConfig,
    ) -> (w: Self)
        requires
            is_pow2(num_spokes as int),
            is_pow2(tick_resolution_ns as int),
            compaction_config.wf(),
        ensures
            w.wf(),
            w@.num_spokes == num_spokes,
            w@.tick_resolution_ns == tick_resolution_ns,
            w@.tick_shift == vstd::std_specs::bits::u64_trailing_zeros(tick_resolution_ns),
            w@.timer_count == 0,
            w@.current_tick == 0,
            w@.start_time_ns == 0,
            w@.cached_next_deadline == NULL_DEADLINE,
            w@.config == compaction_config,
            forall|i: int| 0 <= i < num_spokes ==> #[trigger] w@.spokes[i] == fresh_spoke::<T>(initial_spoke_capacity),
    {
        proof {
            lemma_mask_is_mod(0, num_spokes);
            let k = choose|k: nat| vstd::arithmetic::power2::pow2(k) == tick_resolution_ns;
            vstd::arithmetic::power2::lemma_pow2_pos(k);
            vstd::std_specs::bits::axiom_u64_trailing_zeros(tick_resolution_ns);
        }
        let mut spokes: Vec<Spoke<T>> = Vec::with_capacity(num_spokes);
        let mut i: usize = 0;
        while i < num_spokes
            invariant
                i <= num_spokes,
                spokes@.len() == i,
                forall|j: int| 0 <= j < i ==> (#[trigger] spokes@[j])@.wf() && spokes@[j]@ == fresh_spoke::<T>(
                    initial_spoke_capacity,
                ),
            decreases num_spokes - i,
        {
            spokes.push(Spoke::new(initial_spoke_capacity));
            i = i + 1;
        }
        let w = SingleWheel {
            spokes,
            num_spokes,
            spoke_mask: num_spokes - 1,
            tick_resolution_ns,
            tick_shift: tick_resolution_ns.trailing_zeros(),
            current_tick: 0,
            timer_count: 0,
            cached_next_deadline: NULL_DEADLINE,
            start_time_ns: 0,
            compaction_config,
        };
        proof {
            assert(active_counts(w@.spokes) =~= Seq::new(num_spokes as nat, |k: int| 0nat));
            crate::seqs::lemma_sum_nat_zero(num_spokes as nat);
        }
        w
    }

    /// Sets the time that relative deadlines are measured from.
    pub fn set_start_time_ns(&mut self, start_time_ns: u64)
        requires
            old(self).wf(),
        ensures
            final(self).wf(),
            final(self)@ == (WheelState { start_time_ns, ..old(self)@ }),
    {
        self.start_time_ns = start_time_ns;
    }

    /// Tick resolution in nanoseconds.
    pub fn tick_resolution_ns(&self) -> (r: u64)
        ensures
            r == self@.tick_resolution_ns,
    {
        self.tick_resolution_ns
    }

    /// Log2 of the tick resolution.
    pub fn tick_shift(&self) -> (r: u32)
        ensures
            r == self@.tick_shift,
    {
        self.tick_shift
    }

    /// Time covered by one turn of the wheel: tick resolution times number of spokes.
    pub fn coverage_ns(&self) -> (r: u64)
        requires
            self@.tick_resolution_ns * self@.num_spokes <= u64::MAX,
        ensures
            r == self@.tick_resolution_ns * self@.num_spokes,
    {
        self.tick_resolution_ns * (self.num_spokes as u64)
    }

    /// Schedules a timer with the default data for `deadline_ns`; see
    /// `schedule_with_data`.
    pub fn schedule(&mut self, deadline_ns: u64) -> (r: Result<(usize, usize, u32), TimerWheelError>)
        where T: Default
        requires
            old(self).wf(),
            wheel_room(old(self)@.timer_count + 1, old(self)@.config),
        ensures
            final(self).wf(),
            r == Ok::<(usize, usize, u32), TimerWheelError>(schedule_id(old(self)@, deadline_ns)),
            exists|d: T| final(self)@ == scheduled(old(self)@, deadline_ns, d),
    {
        let data = T::default();
        self.schedule_with_data(deadline_ns, data)
    }

    /// Schedules a timer with `data` for `deadline_ns` in the spoke the deadline hashes
    /// to; returns (spoke, slot, generation), which identify the timer.
    pub fn schedule_with_data(&mut self, deadline_ns: u64, data: T) -> (r: Result<
        (usize, usize, u32),
        TimerWheelError,
    >)
        requires
            old(self).wf(),
            wheel_room(old(self)@.timer_count + 1, old(self)@.config),
        ensures
            final(self).wf(),
            r == Ok::<(usize, usize, u32), TimerWheelError>(schedule_id(old(self)@, deadline_ns)),
            final(self)@ == scheduled(old(self)@, deadline_ns, data),
            deadline_ns >= old(self)@.start_time_ns ==> ({
                let id = schedule_id(old(self)@, deadline_ns);
                &&& id.0 == ((deadline_ns - old(self)@.start_time_ns) / vstd::arithmetic::power2::pow2(
                    old(self)@.tick_shift as nat,
                ) as int) % (old(self)@.num_spokes as int)
                &&& final(self)@.spokes[id.0 as int].entries[id.1 as int] == Some(
                    TimerEntry { deadline_ns, slot_index: id.1 as u32, generation: id.2, data },
                )
            }),
    {
        proof {
            self.lemma_view_spokes();
            if deadline_ns >= self@.start_time_ns {
                lemma_schedule_places_timer(self@, deadline_ns, data);
            }
        }
        let relative_ns = deadline_ns.saturating_sub(self.start_time_ns);
        let tick = relative_ns >> self.tick_shift;
        let spoke_index = (#[verifier::truncate] (tick as usize)) & self.spoke_mask;
        proof {
            lemma_mask_is_mod(#[verifier::truncate] (tick as usize), self.num_spokes);
            let si = spoke_index as int;
            lemma_counts_update(self@.spokes, si, spoke_inserted(self@.spokes[si], deadline_ns, data));
            assert(self@.spokes[si].active_count <= self.timer_count);
            assert(self.timer_count < usize::MAX) by (nonlinear_arith)
                requires
                    (self.timer_count + 1) * self.compaction_config.target_capacity_multiplier <= usize::MAX / 2,
                    self.compaction_config.target_capacity_multiplier >= 1,
            ;
        }
        let slot_index = self.spokes[spoke_index].insert(deadline_ns, data);
        let generation = self.spokes[spoke_index].generation();
        self.timer_count = self.timer_count + 1;
        if deadline_ns < self.cached_next_deadline {
            self.cached_next_deadline = deadline_ns;
        }
        proof {
            let o = old(self)@;
            assert(self@.spokes =~= o.spokes.update(spoke_index as int, spoke_inserted(o.spokes[spoke_index as int], deadline_ns, data)));
        }
        Ok((spoke_index, slot_index, generation))
    }

    /// Cancels the timer (spoke, slot, generation), returning its data.
    pub fn cancel(&mut self, spoke_index: usize, slot_index: usize, generation: u32) -> (r: Result<
        T,
        TimerWheelError,
    >)
        requires
            old(self).wf(),
        ensures
            final(self).wf(),
            r == cancel_result(old(self)@, spoke_index, slot_index, generation),
            final(self)@ == cancelled(old(self)@, spoke_index, slot_index, generation),
    {
        proof {
            self.lemma_view_spokes();
        }
        if spoke_index >= self.num_spokes {
            return Err(TimerWheelError::InvalidTimerId);
        }
        let ghost sp = self@.spokes[spoke_index as int];
        let removed = self.spokes[spoke_index].remove(slot_index, generation);
        match removed {
            Some(data) => {
                proof {
                    let o = old(self)@;
                    lemma_counts_update(o.spokes, spoke_index as int, spoke_freed(sp, slot_index));
                    crate::seqs::lemma_count_some_pos(sp.entries, slot_index as int);
                    assert(self@.spokes =~= o.spokes.update(spoke_index as int, spoke_freed(sp, slot_index)));
                }
                self.timer_count = self.timer_count - 1;
                self.cached_next_deadline = NULL_DEADLINE;
                proof {
                    let c = self.compaction_config;
                    assert(wheel_room(self.timer_count as int, c)) by (nonlinear_arith)
                        requires
                            wheel_room(self.timer_count + 1, c),
                    ;
                }
                Ok(data)
            },
            None => {
                proof {
                    assert(self@.spokes =~= old(self)@.spokes);
                }
                Err(TimerWheelError::TimerNotFound)
            },
        }
    }

    /// Polls the spokes of the ticks from `previous_tick` to `current_tick` (all spokes
    /// when the range wraps or covers the wheel) for timers due at `now_ns`, removing up
    /// to `expiry_limit` of them and appending them to `output` as (spoke, slot,
    /// generation, deadline, data); polled spokes may be compacted. Returns the number
    /// of expired timers.
    #[verifier::spinoff_prover]
    pub fn poll(
        &mut self,
        now_ns: u64,
        previous_tick: u64,
        current_tick: u64,
        expiry_limit: usize,
        output: &mut Vec<(usize, usize, u32, u64, T)>,
    ) -> (r: usize)
        requires
            old(self).wf(),
            current_tick >= previous_tick ==> current_tick - previous_tick < usize::MAX,
            previous_tick + old(self)@.num_spokes <= usize::MAX,
        ensures
            final(self).wf(),
            r <= expiry_limit || (old(self)@.timer_count == 0 && r == 0),
            final(self)@.current_tick == current_tick,
            final(self)@.timer_count == old(self)@.timer_count - r,
            final(output)@.len() == old(output)@.len() + r,
            final(output)@.take(old(output)@.len() as int) == old(output)@,
            forall|j: int|
                old(output)@.len() <= j < final(output)@.len() ==> #[trigger] item_from(
                    old(self)@.spokes[final(output)@[j].0 as int],
                    now_ns,
                    final(output)@[j],
                ) && final(output)@[j].0 < old(self)@.num_spokes,
            final(self)@.num_spokes == old(self)@.num_spokes,
            final(self)@.start_time_ns == old(self)@.start_time_ns,
            final(self)@.tick_shift == old(self)@.tick_shift,
            final(self)@.tick_resolution_ns == old(self)@.tick_resolution_ns,
            final(self)@.config == old(self)@.config,
            final(self)@.cached_next_deadline == if r > 0 {
                NULL_DEADLINE
            } else {
                old(self)@.cached_next_deadline
            },
            forall|i: int|
                0 <= i < old(self)@.num_spokes && scan_offset(i, previous_tick as int, old(self)@.num_spokes as int)
                    >= scan_count(previous_tick, current_tick, old(self)@.num_spokes) ==> #[trigger] final(self)@.spokes[i]
                    == old(self)@.spokes[i],
            old(self)@.timer_count > 0 && r < expiry_limit ==> forall|i: int|
                0 <= i < old(self)@.num_spokes && scan_offset(i, previous_tick as int, old(self)@.num_spokes as int)
                    < scan_count(previous_tick, current_tick, old(self)@.num_spokes) ==> !#[trigger] final(self)@.has_due(i, now_ns),
    {
        proof {
            self.lemma_view_spokes();
        }
        if self.timer_count == 0 {
            self.current_tick = current_tick;
            proof {
                assert(output@.take(output@.len() as int) =~= output@);
            }
            return 0;
        }
        let mut expired_count: usize = 0;
        let ticks_to_scan: usize = if current_tick >= previous_tick {
            let d = (#[verifier::truncate] ((current_tick - previous_tick) as usize)) + 1;
            if d < self.num_spokes {
                d
            } else {
                self.num_spokes
            }
        } else {
            self.num_spokes
        };
        let ghost o = self@;
        let ghost out0 = output@;
        let n = self.num_spokes;
        let p = #[verifier::truncate] (previous_tick as usize);
        let mut tick_offset: usize = 0;
        while tick_offset < ticks_to_scan && expired_count < expiry_limit
            invariant
                self.wf(),
                n == self.num_spokes,
                n == o.num_spokes,
                p == previous_tick,
                p + n <= usize::MAX,
                ticks_to_scan == scan_count(previous_tick, current_tick, n),
                ticks_to_scan <= n,
                tick_offset <= ticks_to_scan,
                expired_count <= expiry_limit,
                self@.start_time_ns == o.start_time_ns,
                self@.tick_shift == o.tick_shift,
                self@.tick_resolution_ns == o.tick_resolution_ns,
                self@.config == o.config,
                self@.current_tick == o.current_tick,
                self@.cached_next_deadline == o.cached_next_deadline,
                self@.timer_count == o.timer_count - expired_count,
                output@.len() == out0.len() + expired_count,
                output@.take(out0.len() as int) == out0,
                forall|j: int|
                    out0.len() <= j < output@.len() ==> #[trigger] item_from(
                        o.spokes[output@[j].0 as int],
                        now_ns,
                        output@[j],
                    ) && output@[j].0 < n,
                forall|i: int|
                    0 <= i < n && scan_offset(i, p as int, n as int) >= tick_offset ==> #[trigger] self@.spokes[i]
                        == o.spokes[i],
                expired_count < expiry_limit ==> forall|i: int|
                    0 <= i < n && scan_offset(i, p as int, n as int) < tick_offset ==> !#[trigger] self@.has_due(i, now_ns),
            decreases ticks_to_scan - tick_offset,
        {
            proof {
                self.lemma_view_spokes();
            }
            let spoke_index = (p + tick_offset) & self.spoke_mask;
            proof {
                lemma_mask_is_mod((p + tick_offset) as usize, n);
                lemma_scan_offset(p as int, tick_offset as int, n as int);
                assert(scan_offset(spoke_index as int, p as int, n as int) == tick_offset);
                crate::seqs::lemma_sum_nat_ge(active_counts(self@.spokes), spoke_index as int);
                assert(self@.spokes[spoke_index as int].active_count <= self@.timer_count);
                let c = self.compaction_config;
                let a = self@.spokes[spoke_index as int].active_count as int;
                assert(wheel_room(a, c)) by (nonlinear_arith)
                    requires
                        wheel_room(self@.timer_count as int, c),
                        0 <= a <= self@.timer_count,
                ;
            }
            let ghost before = self@;
            let ghost out_before = output@;
            let ghost sp_before = self.spokes@[spoke_index as int]@;
            assert(sp_before == before.spokes[spoke_index as int]);
            assert(before.spokes[spoke_index as int] == o.spokes[spoke_index as int]);
            let before_count = expired_count;
            let mut spoke: Spoke<T> = Spoke::new(0);
            self.spokes.set_and_swap(spoke_index, &mut spoke);
            assert(spoke@ == sp_before);
            expired_count = poll_spoke(
                &mut spoke,
                spoke_index,
                now_ns,
                expiry_limit,
                expired_count,
                output,
                &self.compaction_config,
            );
            self.spokes.set_and_swap(spoke_index, &mut spoke);
            let delta = expired_count - before_count;
            proof {
                let si = spoke_index as int;
                let new_sp = self.spokes@[si]@;
                lemma_counts_update(before.spokes, si, new_sp);
                assert(self@.spokes =~= before.spokes.update(si, new_sp));
            }
            self.timer_count = self.timer_count - delta as u64;
            proof {
                let c = self.compaction_config;
                assert(wheel_room(self.timer_count as int, c)) by (nonlinear_arith)
                    requires
                        wheel_room(before.timer_count as int, c),
                        self.timer_count <= before.timer_count,
                ;
                assert(output@.take(out0.len() as int) =~= out0) by {
                    assert(output@.take(out_before.len() as int) == out_before);
                    assert forall|j: int| 0 <= j < out0.len() implies output@[j] == out0[j] by {
                        assert(output@[j] == output@.take(out_before.len() as int)[j]);
                        assert(out_before[j] == out_before.take(out0.len() as int)[j]);
                    }
                }
                assert forall|j: int|
                    out0.len() <= j < output@.len() implies #[trigger] item_from(
                        o.spokes[output@[j].0 as int],
                        now_ns,
                        output@[j],
                    ) && output@[j].0 < n by {
                    if j < out_before.len() {
                        assert(output@[j] == output@.take(out_before.len() as int)[j]);
                    } else {
                        assert(out_before.len() <= j < output@.len());
                        assert(item_from(sp_before, now_ns, output@[j]));
                        assert(output@[j].0 == spoke_index);
                        assert(o.spokes[spoke_index as int] == sp_before);
                        assert(o.spokes[output@[j].0 as int] == sp_before);
                    }
                }
                assert forall|i: int|
                    0 <= i < n && scan_offset(i, p as int, n as int) >= tick_offset + 1 implies #[trigger] self@.spokes[i]
                        == o.spokes[i] by {
                    assert(i != spoke_index);
                    assert(self@.spokes[i] == before.spokes[i]);
                }
                if expired_count < expiry_limit {
                    assert forall|i: int|
                        0 <= i < n && scan_offset(i, p as int, n as int) < tick_offset + 1 implies !#[trigger] self@.has_due(i, now_ns) by {
                        if i != spoke_index {
                            lemma_scan_offset_inverse(i, p as int, n as int);
                            assert(scan_offset(i, p as int, n as int) != tick_offset);
                            assert(self@.spokes[i] == before.spokes[i]);
                            assert(!before.has_due(i, now_ns));
                        }
                    }
                }
            }
            tick_offset = tick_offset + 1;
        }
        let ghost at_end = self@;
        self.current_tick = current_tick;
        if expired_count > 0 {
            self.cached_next_deadline = NULL_DEADLINE;
        }
        proof {
            assert(self@.spokes == at_end.spokes);
            if expired_count < expiry_limit {
                assert(tick_offset == ticks_to_scan);
                assert forall|i: int|
                    0 <= i < n && scan_offset(i, previous_tick as int, n as int) < scan_count(previous_tick, current_tick, n)
                        implies !#[trigger] self@.has_due(i, now_ns) by {
                    assert(!at_end.has_due(i, now_ns));
                }
            }
        }
        expired_count
    }

    /// The earliest deadline: the cached one when valid, otherwise recomputed over all
    /// timers and cached; `None` when there are no timers.
    pub fn next_deadline(&mut self) -> (r: Option<u64>)
        requires
            old(self).wf(),
        ensures
            final(self).wf(),
            old(self)@.timer_count == 0 ==> r is None && final(self)@ == old(self)@,
            old(self)@.timer_count != 0 && old(self)@.cached_next_deadline != NULL_DEADLINE ==> r == Some(
                old(self)@.cached_next_deadline,
            ) && final(self)@ == old(self)@,
            old(self)@.timer_count != 0 && old(self)@.cached_next_deadline == NULL_DEADLINE ==> {
                &&& is_min_deadline(old(self)@.spokes, final(self)@.cached_next_deadline)
                &&& final(self)@ == (WheelState {
                    cached_next_deadline: final(self)@.cached_next_deadline,
                    ..old(self)@
                })
                &&& r == if final(self)@.cached_next_deadline != NULL_DEADLINE {
                    Some(final(self)@.cached_next_deadline)
                } else {
                    None
                }
            },
    {
        proof {
            self.lemma_view_spokes();
        }
        if self.timer_count == 0 {
            return None;
        }
        if self.cached_next_deadline != NULL_DEADLINE {
            return Some(self.cached_next_deadline);
        }
        let mut earliest = NULL_DEADLINE;
        let n = self.spokes.len();
        let mut i: usize = 0;
        while i < n
            invariant
                self@ == old(self)@,
                self.wf(),
                n == self.spokes@.len(),
                i <= n,
                forall|a: int, k: int|
                    0 <= a < i && 0 <= k < self@.spokes[a].entries.len() && #[trigger] self@.spokes[a].entries[k] is Some
                        ==> self@.spokes[a].entries[k]->0.deadline_ns >= earliest,
                earliest == NULL_DEADLINE || exists|a: int, k: int|
                    0 <= a < i && 0 <= k < self@.spokes[a].entries.len() && #[trigger] self@.spokes[a].entries[k] is Some
                        && self@.spokes[a].entries[k]->0.deadline_ns == earliest,
            decreases n - i,
        {
            proof {
                self.lemma_view_spokes();
            }
            let m = self.spokes[i].entries.len();
            let mut k: usize = 0;
            while k < m
                invariant
                    self@ == old(self)@,
                    self.wf(),
                    n == self.spokes@.len(),
                    i < n,
                    m == self@.spokes[i as int].entries.len(),
                    k <= m,
                    forall|a: int, kk: int|
                        0 <= a < i && 0 <= kk < self@.spokes[a].entries.len() && #[trigger] self@.spokes[a].entries[kk] is Some
                            ==> self@.spokes[a].entries[kk]->0.deadline_ns >= earliest,
                    forall|kk: int|
                        0 <= kk < k && #[trigger] self@.spokes[i as int].entries[kk] is Some
                            ==> self@.spokes[i as int].entries[kk]->0.deadline_ns >= earliest,
                    earliest == NULL_DEADLINE || exists|a: int, kk: int|
                        0 <= a <= i && 0 <= kk < self@.spokes[a].entries.len() && #[trigger] self@.spokes[a].entries[kk] is Some
                            && self@.spokes[a].entries[kk]->0.deadline_ns == earliest,
                decreases m - k,
            {
                proof {
                    self.lemma_view_spokes();
                }
                match &self.spokes[i].entries[k] {
                    Some(e) => {
                        if e.deadline_ns < earliest {
                            earliest = e.deadline_ns;
                            proof {
                                assert(self@.spokes[i as int].entries[k as int] is Some);
                            }
                        }
                    },
                    None => {},
                }
                k = k + 1;
            }
            i = i + 1;
        }
        self.cached_next_deadline = earliest;
        proof {
            assert forall|a: int, k: int|
                0 <= a < old(self)@.spokes.len() && 0 <= k < old(self)@.spokes[a].entries.len()
                    && #[trigger] old(self)@.spokes[a].entries[k] is Some implies old(self)@.spokes[a].entries[k]->0.deadline_ns
                    >= earliest by {}
        }
        if earliest != NULL_DEADLINE {
            Some(earliest)
        } else {
            None
        }
    }

    /// Removes every timer: spokes keep their generation but lose their slots.
    pub fn clear(&mut self)
        requires
            old(self).wf(),
        ensures
            final(self).wf(),
            final(self)@ == (WheelState {
                spokes: all_cleared(old(self)@.spokes),
                timer_count: 0,
                cached_next_deadline: NULL_DEADLINE,
                current_tick: 0,
                ..old(self)@
            }),
    {
        let n = self.spokes.len();
        let mut i: usize = 0;
        while i < n
            invariant
                n == self.spokes@.len(),
                n == old(self).spokes@.len(),
                i <= n,
                forall|j: int| 0 <= j < i ==> (#[trigger] self.spokes@[j])@ == (SpokeState::<T> {
                    entries: Seq::empty(),
                    free_list: Seq::empty(),
                    active_count: 0,
                    generation: old(self).spokes@[j]@.generation,
                }),
                forall|j: int| i <= j < n ==> #[trigger] self.spokes@[j] == old(self).spokes@[j],
                self.num_spokes == old(self).num_spokes,
                self.spoke_mask == old(self).spoke_mask,
                self.tick_resolution_ns == old(self).tick_resolution_ns,
                self.tick_shift == old(self).tick_shift,
                self.start_time_ns == old(self).start_time_ns,
                self.compaction_config == old(self).compaction_config,
                self.current_tick == old(self).current_tick,
                self.timer_count == old(self).timer_count,
                self.cached_next_deadline == old(self).cached_next_deadline,
            decreases n - i,
        {
            self.spokes[i].reset();
            i = i + 1;
        }
        self.timer_count = 0;
        self.cached_next_deadline = NULL_DEADLINE;
        self.current_tick = 0;
        proof {
            let s = self@;
            assert(s.spokes =~= all_cleared(old(self)@.spokes));
            assert(active_counts(s.spokes) =~= Seq::new(n as nat, |k: int| 0nat));
            crate::seqs::lemma_sum_nat_zero(n as nat);
            assert forall|j: int| 0 <= j < s.spokes.len() implies (#[trigger] s.spokes[j]).wf() by {
                crate::seqs::lemma_count_some_none::<TimerEntry<T>>(0);
                assert(s.spokes[j].entries =~= Seq::new(0, |k: int| None::<TimerEntry<T>>));
            }
            let c = self.compaction_config;
            assert(wheel_room(0, c));
        }
    }

    /// Compacts every spoke that has a free slot.
    pub fn compact_all(&mut self)
        requires
            old(self).wf(),
        ensures
            final(self).wf(),
            final(self)@ == (WheelState {
                spokes: all_compacted(old(self)@.spokes, old(self)@.config),
                ..old(self)@
            }),
    {
        proof {
            self.lemma_view_spokes();
        }
        let ghost o = self@;
        let n = self.spokes.len();
        let mut i: usize = 0;
        while i < n
            invariant
                self.wf(),
                n == self.spokes@.len(),
                n == o.spokes.len(),
                i <= n,
                forall|j: int| 0 <= j < i ==> #[trigger] self@.spokes[j] == (if o.spokes[j].active_count < o.spokes[j].entries.len() {
                    spoke_compacted(o.spokes[j], o.config)
                } else {
                    o.spokes[j]
                }),
                forall|j: int| i <= j < n ==> #[trigger] self@.spokes[j] == o.spokes[j],
                self@ == (WheelState { spokes: self@.spokes, ..o }),
            decreases n - i,
        {
            proof {
                self.lemma_view_spokes();
                crate::seqs::lemma_sum_nat_ge(active_counts(self@.spokes), i as int);
                let c = self.compaction_config;
                let a = self@.spokes[i as int].active_count as int;
                assert(wheel_room(a, c)) by (nonlinear_arith)
                    requires
                        wheel_room(self@.timer_count as int, c),
                        0 <= a <= self@.timer_count,
                ;
            }
            let ghost before = self@;
            if self.spokes[i].active_count() < self.spokes[i].capacity() {
                let mut spoke: Spoke<T> = Spoke::new(0);
                self.spokes.set_and_swap(i, &mut spoke);
                let ghost sp0 = spoke@;
                let _ = spoke.compact(&self.compaction_config);
                self.spokes.set_and_swap(i, &mut spoke);
                proof {
                    lemma_counts_update(before.spokes, i as int, spoke_compacted(sp0, o.config));
                    assert(self@.spokes =~= before.spokes.update(i as int, spoke_compacted(sp0, o.config)));
                }
            }
            i = i + 1;
        }
        proof {
            assert(self@.spokes =~= all_compacted(o.spokes, o.config));
        }
    }

    /// The wheel's occupancy: its spokes, the slots they hold and the active timers.
    pub fn memory_stats(&self) -> (r: WheelMemoryStats)
        requires
            self.wf(),
            crate::seqs::sum_nat(slot_capacities(self@.spokes)) <= usize::MAX,
        ensures
            r.num_spokes == self@.num_spokes,
            r.total_slot_capacity == crate::seqs::sum_nat(slot_capacities(self@.spokes)),
            r.active_timers == self@.timer_count,
    {
        let ghost caps = slot_capacities(self@.spokes);
        let ghost acts = active_counts(self@.spokes);
        let mut total_capacity: usize = 0;
        let mut total_active: usize = 0;
        let mut i: usize = 0;
        while i < self.spokes.len()
            invariant
                self.wf(),
                caps == slot_capacities(self@.spokes),
                acts == active_counts(self@.spokes),
                crate::seqs::sum_nat(caps) <= usize::MAX,
                i <= self.spokes@.len(),
                total_capacity == crate::seqs::sum_nat(caps.take(i as int)),
                total_active == crate::seqs::sum_nat(acts.take(i as int)),
                total_active <= total_capacity,
            decreases self.spokes@.len() - i,
        {
            proof {
                assert(self@.spokes[i as int] == self.spokes@[i as int]@);
                assert(self@.spokes[i as int].wf());
                crate::seqs::lemma_sum_nat_take(caps, i as int);
                crate::seqs::lemma_sum_nat_take(acts, i as int);
                crate::seqs::lemma_sum_nat_prefix_le(caps, i as int + 1);
            }
            total_capacity = total_capacity + self.spokes[i].capacity();
            total_active = total_active + self.spokes[i].active_count();
            i = i + 1;
        }
        proof {
            assert(caps.take(i as int) =~= caps);
            assert(acts.take(i as int) =~= acts);
        }
        WheelMemoryStats { num_spokes: self.num_spokes, total_slot_capacity: total_capacity, active_timers: total_active }
    }

    /// Whether one more timer keeps the compaction arithmetic in range.
    pub fn has_room(&self) -> (r: bool)
        ensures
            r == wheel_room(self@.timer_count + 1, self@.config),
    {
        let count = self.timer_count as u128 + 1;
        let half = (usize::MAX / 2) as u128;
        let ratio = self.compaction_config.compaction_ratio as u128;
        let mult = self.compaction_config.target_capacity_multiplier as u128;
        proof {
            assert(count * ratio <= u128::MAX) by (nonlinear_arith)
                requires
                    count <= 0x1_0000_0000_0000_0000u128,
                    ratio <= 0xFFFF_FFFF_FFFF_FFFFu128,
            ;
            assert(count * mult <= u128::MAX) by (nonlinear_arith)
                requires
                    count <= 0x1_0000_0000_0000_0000u128,
                    mult <= 0xFFFF_FFFF_FFFF_FFFFu128,
            ;
        }
        count * ratio <= half && count * mult <= half
    }

    /// Number of active timers.
    pub fn timer_count(&self) -> (r: u64)
        ensures
            r == self@.timer_count,
    {
        self.timer_count
    }

    /// The tick of the last poll.
    pub fn current_tick(&self) -> (r: u64)
        ensures
            r == self@.current_tick,
    {
        self.current_tick
    }

    /// The number of spokes.
    pub fn num_spokes(&self) -> (r: usize)
        ensures
            r == self@.num_spokes,
    {
        self.num_spokes
    }
}

impl<T> SingleWheel<T> {
    /// Cancelling a timer right after it was scheduled hands back its data, and the
    /// wheel counts as many timers as before.
    pub proof fn lemma_cancel_undoes_schedule(&self, deadline_ns: u64, data: T)
        requires
            self.wf(),
            wheel_room(self@.timer_count + 1, self@.config),
        ensures
            ({
                let id = schedule_id(self@, deadline_ns);
                let s = scheduled(self@, deadline_ns, data);
                &&& cancel_result(s, id.0, id.1, id.2) == Ok::<T, TimerWheelError>(data)
                &&& cancelled(s, id.0, id.1, id.2).timer_count == self@.timer_count
            }),
    {
        self.lemma_view_spokes();
        let w = self@;
        let n = w.num_spokes;
        let rel: u64 = if deadline_ns > w.start_time_ns {
            (deadline_ns - w.start_time_ns) as u64
        } else {
            0
        };
        let x = #[verifier::truncate] ((rel >> w.tick_shift) as usize);
        lemma_mask_is_mod(x, n);
        let si = w.spoke_of(deadline_ns);
        assert(0 <= si < n);
        let o = w.spokes[si];
        assert(o.wf());
        assert(o.entries.len() == self.spokes@[si]@.entries.len());
        assert(w.timer_count < u64::MAX) by (nonlinear_arith)
            requires
                (w.timer_count + 1) * w.config.target_capacity_multiplier <= usize::MAX / 2,
                w.config.target_capacity_multiplier >= 1,
        ;
        let s = scheduled(w, deadline_ns, data);
        let id = schedule_id(w, deadline_ns);
        if o.free_list.len() > 0 {
            assert(o.free_list[o.free_list.len() - 1] < o.entries.len());
        }
        assert(s.spokes[si] == spoke_inserted(o, deadline_ns, data));
        assert(names_timer(s, id.0, id.1, id.2));
    }
}

/// `it` = (spoke, slot, generation, deadline, data) describes a timer of spoke state
/// `sp` that is due at `now_ns`.
pub open spec fn item_from<T>(sp: SpokeState<T>, now_ns: u64, it: (usize, usize, u32, u64, T)) -> bool {
    &&& it.1 < sp.entries.len()
    &&& sp.entries[it.1 as int] is Some
    &&& sp.entries[it.1 as int]->0.generation == it.2
    &&& sp.entries[it.1 as int]->0.deadline_ns == it.3
    &&& sp.entries[it.1 as int]->0.data === it.4
    &&& it.3 <= now_ns
}

/// Whether some timer of spoke state `sp` is due at `now_ns`.
pub open spec fn spoke_has_due<T>(sp: SpokeState<T>, now_ns: u64) -> bool {
    exists|k: int|
        0 <= k < sp.entries.len() && #[trigger] sp.entries[k] is Some && sp.entries[k]->0.deadline_ns
            <= now_ns
}

/// Number of spokes a poll from `previous_tick` to `current_tick` scans.
pub open spec fn scan_count(previous_tick: u64, current_tick: u64, n: usize) -> int {
    if current_tick >= previous_tick {
        if current_tick - previous_tick + 1 < n {
            current_tick - previous_tick + 1
        } else {
            n as int
        }
    } else {
        n as int
    }
}

/// Removes, in slot order, the timers of `spoke` due at `now_ns` while `expired` stays
/// below `expiry_limit`, appending them to `output`; then compacts the spoke when it
/// has become sparse. Returns the updated expired count.
#[verifier::spinoff_prover]
fn poll_spoke<T>(
    spoke: &mut Spoke<T>,
    spoke_index: usize,
    now_ns: u64,
    expiry_limit: usize,
    expired_in: usize,
    output: &mut Vec<(usize, usize, u32, u64, T)>,
    config: &CompactionConfig,
) -> (expired: usize)
    requires
        old(spoke)@.wf(),
        config.wf(),
        wheel_room(old(spoke)@.active_count as int, *config),
        expired_in <= expiry_limit,
    ensures
        final(spoke)@.wf(),
        expired_in <= expired <= expiry_limit,
        final(spoke)@.active_count == old(spoke)@.active_count - (expired - expired_in),
        final(output)@.len() == old(output)@.len() + (expired - expired_in),
        final(output)@.take(old(output)@.len() as int) == old(output)@,
        forall|j: int|
            old(output)@.len() <= j < final(output)@.len() ==> #[trigger] item_from(old(spoke)@, now_ns, final(output)@[j])
                && final(output)@[j].0 == spoke_index,
        expired < expiry_limit ==> !spoke_has_due(final(spoke)@, now_ns),
{
    let n = spoke.entries.len();
    let ghost o = spoke@;
    let ghost out0 = output@;
    let mut expired = expired_in;
    let mut slot_idx: usize = 0;
    while slot_idx < n && expired < expiry_limit
        invariant
            spoke@.wf(),
            spoke@.entries.len() == n,
            n == o.entries.len(),
            slot_idx <= n,
            expired_in <= expired <= expiry_limit,
            spoke@.active_count == o.active_count - (expired - expired_in),
            output@.len() == out0.len() + (expired - expired_in),
            output@.take(out0.len() as int) == out0,
            forall|k: int| slot_idx <= k < n ==> #[trigger] spoke@.entries[k] === o.entries[k],
            forall|k: int|
                0 <= k < slot_idx && #[trigger] spoke@.entries[k] is Some ==> spoke@.entries[k]->0.deadline_ns
                    > now_ns,
            forall|j: int|
                out0.len() <= j < output@.len() ==> #[trigger] item_from(o, now_ns, output@[j])
                    && output@[j].0 == spoke_index,
        decreases n - slot_idx,
    {
        let due = match &spoke.entries[slot_idx] {
            Some(entry) => if entry.deadline_ns <= now_ns {
                Some(entry.generation)
            } else {
                None
            },
            None => None,
        };
        if let Some(generation) = due {
            let ghost before = spoke@;
            let ghost out_before = output@;
            let removed = spoke.remove_unchecked(slot_idx);
            if let Some((deadline_ns, data)) = removed {
                output.push((spoke_index, slot_idx, generation, deadline_ns, data));
                expired = expired + 1;
                proof {
                    assert(output@.take(out0.len() as int) =~= out0) by {
                        assert forall|j: int| 0 <= j < out0.len() implies output@[j] == out0[j] by {
                            assert(output@[j] == out_before[j]);
                            assert(out_before[j] == out_before.take(out0.len() as int)[j]);
                        }
                    }
                    assert forall|j: int|
                        out0.len() <= j < output@.len() implies #[trigger] item_from(o, now_ns, output@[j])
                            && output@[j].0 == spoke_index by {
                        if j < out_before.len() {
                            assert(output@[j] == out_before[j]);
                        }
                    }
                }
            }
        }
        slot_idx = slot_idx + 1;
    }
    proof {
        let c = *config;
        let a = spoke@.active_count as int;
        assert(wheel_room(a, c)) by (nonlinear_arith)
            requires
                wheel_room(o.active_count as int, c),
                0 <= a <= o.active_count,
        ;
    }
    if spoke.should_compact(config) {
        let ghost pre = spoke@;
        let _ = spoke.compact(config);
        proof {
            if expired < expiry_limit {
                assert(!spoke_has_due(spoke@, now_ns)) by {
                    if spoke_has_due(spoke@, now_ns) {
                        let k = choose|k: int|
                            0 <= k < spoke@.entries.len() && #[trigger] spoke@.entries[k] is Some
                                && spoke@.entries[k]->0.deadline_ns <= now_ns;
                        lemma_live_len(pre.entries);
                        let g = pre.generation.wrapping_add(1);
                        assert(k < pre.active_count);
                        assert(spoke@.entries[k] == compacted(pre.entries, g)[k]);
                        lemma_live_from(pre.entries, k);
                        let j = choose|j: int| 0 <= j < pre.entries.len() && pre.entries[j] == Some(
                            #[trigger] live_entries(pre.entries)[k],
                        );
                        assert(pre.entries[j] is Some);
                    }
                }
            }
        }
    } else {
        proof {
            if expired < expiry_limit {
                assert(slot_idx == n);
            }
        }
    }
    expired
}

/// `m` is the earliest deadline of the timers of `spokes` (`NULL_DEADLINE` when there
/// are none, or when every deadline is `NULL_DEADLINE`).
pub open spec fn is_min_deadline<T>(spokes: Seq<SpokeState<T>>, m: u64) -> bool {
    &&& forall|a: int, k: int|
        0 <= a < spokes.len() && 0 <= k < spokes[a].entries.len() && #[trigger] spokes[a].entries[k] is Some
            ==> spokes[a].entries[k]->0.deadline_ns >= m
    &&& m == NULL_DEADLINE || exists|a: int, k: int|
        0 <= a < spokes.len() && 0 <= k < spokes[a].entries.len() && #[trigger] spokes[a].entries[k] is Some
            && spokes[a].entries[k]->0.deadline_ns == m
}

/// Every spoke emptied, keeping its generation.
pub open spec fn all_cleared<T>(spokes: Seq<SpokeState<T>>) -> Seq<SpokeState<T>> {
    spokes.map_values(
        |sp: SpokeState<T>|
            SpokeState { entries: Seq::empty(), free_list: Seq::empty(), active_count: 0, generation: sp.generation },
    )
}

/// Every spoke with a free slot compacted.
pub open spec fn all_compacted<T>(spokes: Seq<SpokeState<T>>, config: CompactionConfig) -> Seq<SpokeState<T>> {
    spokes.map_values(|sp: SpokeState<T>| compact_if_slack(sp, config))
}

/// The spoke compacted when it has a free slot, unchanged otherwise.
pub open spec fn compact_if_slack<T>(sp: SpokeState<T>, config: CompactionConfig) -> SpokeState<T> {
    if sp.active_count < sp.entries.len() {
        spoke_compacted(sp, config)
    } else {
        sp
    }
}

/// Whether (spoke, slot, generation) names a timer of `w`.
pub open spec fn names_timer<T>(w: WheelState<T>, spoke_index: usize, slot_index: usize, generation: u32) -> bool {
    &&& spoke_index < w.num_spokes
    &&& slot_index < w.spokes[spoke_index as int].entries.len()
    &&& w.spokes[spoke_index as int].entries[slot_index as int] is Some
    &&& w.spokes[spoke_index as int].entries[slot_index as int]->0.generation == generation
}

/// What cancelling (spoke, slot, generation) returns.
pub open spec fn cancel_result<T>(w: WheelState<T>, spoke_index: usize, slot_index: usize, generation: u32) -> Result<
    T,
    TimerWheelError,
> {
    if spoke_index >= w.num_spokes {
        Err(TimerWheelError::InvalidTimerId)
    } else if names_timer(w, spoke_index, slot_index, generation) {
        Ok(w.spokes[spoke_index as int].entries[slot_index as int]->0.data)
    } else {
        Err(TimerWheelError::TimerNotFound)
    }
}

/// The wheel after cancelling (spoke, slot, generation).
pub open spec fn cancelled<T>(w: WheelState<T>, spoke_index: usize, slot_index: usize, generation: u32) -> WheelState<T> {
    if names_timer(w, spoke_index, slot_index, generation) {
        WheelState {
            spokes: w.spokes.update(spoke_index as int, spoke_freed(w.spokes[spoke_index as int], slot_index)),
            timer_count: (w.timer_count - 1) as u64,
            cached_next_deadline: NULL_DEADLINE,
            ..w
        }
    } else {
        w
    }
}

/// The (spoke, slot, generation) a timer for `deadline_ns` is given.
pub open spec fn schedule_id<T>(w: WheelState<T>, deadline_ns: u64) -> (usize, usize, u32) {
    let si = w.spoke_of(deadline_ns);
    (si as usize, insert_slot(w.spokes[si]), w.spokes[si].generation)
}

/// The wheel after a timer for `deadline_ns` with `data` is scheduled.
pub open spec fn scheduled<T>(w: WheelState<T>, deadline_ns: u64, data: T) -> WheelState<T> {
    let si = w.spoke_of(deadline_ns);
    WheelState {
        spokes: w.spokes.update(si, spoke_inserted(w.spokes[si], deadline_ns, data)),
        timer_count: (w.timer_count + 1) as u64,
        cached_next_deadline: if deadline_ns < w.cached_next_deadline {
            deadline_ns
        } else {
            w.cached_next_deadline
        },
        ..w
    }
}

/// A cancel that finds its timer clears the cached next deadline, so the cache
/// never keeps the deadline of a cancelled timer; a cancel that finds nothing
/// changes nothing.
pub proof fn lemma_cancel_clears_cache<T>(w: WheelState<T>, spoke_index: usize, slot_index: usize, generation: u32)
    ensures
        names_timer(w, spoke_index, slot_index, generation) ==> cancelled(
            w,
            spoke_index,
            slot_index,
            generation,
        ).cached_next_deadline == NULL_DEADLINE,
        !names_timer(w, spoke_index, slot_index, generation) ==> cancelled(w, spoke_index, slot_index, generation) == w,
{
}

/// The spoke of a deadline at or after the wheel's start is the deadline's tick
/// counted from the start, `(deadline - start) / 2^tick_shift`, taken modulo the
/// number of spokes; a deadline before the start goes to spoke 0.
pub proof fn lemma_spoke_of_relative_tick<T>(w: WheelState<T>, deadline_ns: u64)
    requires
        w.wf(),
    ensures
        0 <= w.spoke_of(deadline_ns) < w.num_spokes,
        deadline_ns >= w.start_time_ns ==> w.spoke_of(deadline_ns) == ((deadline_ns - w.start_time_ns)
            / vstd::arithmetic::power2::pow2(w.tick_shift as nat) as int) % (w.num_spokes as int),
        deadline_ns < w.start_time_ns ==> w.spoke_of(deadline_ns) == 0,
{
    let n = w.num_spokes;
    let rel: u64 = if deadline_ns > w.start_time_ns {
        (deadline_ns - w.start_time_ns) as u64
    } else {
        0
    };
    let sh: u64 = w.tick_shift as u64;
    vstd::bits::lemma_u64_shr_is_div(rel, sh);
    vstd::arithmetic::power2::lemma_pow2_pos(w.tick_shift as nat);
    assert(0nat / vstd::arithmetic::power2::pow2(w.tick_shift as nat) == 0);
    let y: u64 = rel >> sh;
    assert(y == rel >> w.tick_shift);
    let k = choose|k: nat| vstd::arithmetic::power2::pow2(k) == n;
    vstd::arithmetic::power2::lemma_pow2_pos(k);
    vstd::arithmetic::power2::lemma2_to64();
    if k > 64 {
        vstd::arithmetic::power2::lemma_pow2_strictly_increases(64, k);
    }
    let m: usize = (n - 1) as usize;
    assert(((y as usize) & m) == ((y & (m as u64)) as usize)) by (bit_vector);
    vstd::bits::lemma_u64_low_bits_mask_is_mod(y, k);
    assert(vstd::bits::low_bits_mask(k) == n - 1);
    assert(y % (n as u64) < n);
    if deadline_ns < w.start_time_ns {
        assert(y == 0);
        assert(0u64 % (n as u64) == 0);
    }
}

/// Scheduling puts a timer in the spoke of its deadline's tick counted from the
/// wheel's start: for a deadline at or after the start, the id's spoke is
/// `((deadline - start) / 2^tick_shift) % num_spokes`, and after scheduling that
/// spoke holds, at the id's slot, an entry with the deadline, the data and the id's
/// generation.
pub proof fn lemma_schedule_places_timer<T>(w: WheelState<T>, deadline_ns: u64, data: T)
    requires
        w.wf(),
        deadline_ns >= w.start_time_ns,
    ensures
        ({
            let id = schedule_id(w, deadline_ns);
            let f = scheduled(w, deadline_ns, data);
            let si = ((deadline_ns - w.start_time_ns) / vstd::arithmetic::power2::pow2(w.tick_shift as nat) as int)
                % (w.num_spokes as int);
            &&& 0 <= si < w.num_spokes
            &&& id.0 == si
            &&& id.1 < f.spokes[si].entries.len()
            &&& f.spokes[si].entries[id.1 as int] == Some(
                TimerEntry { deadline_ns, slot_index: id.1 as u32, generation: id.2, data },
            )
        }),
{
    lemma_spoke_of_relative_tick(w, deadline_ns);
    let si = w.spoke_of(deadline_ns);
    assert(w.spokes[si].wf());
}

/// A poll over the ticks `prev..=cur` scans the spoke of every tick `t` in that
/// range: spoke `t % num_spokes` lies within the spokes the poll visits (see
/// `scan_count`). With `lemma_schedule_places_timer`, a timer whose deadline's tick
/// counted from the start lies in the polled range is in a scanned spoke.
pub proof fn lemma_tick_spoke_scanned(t: u64, prev: u64, cur: u64, n: usize)
    requires
        n > 0,
        prev <= t <= cur,
    ensures
        scan_offset((t as int) % (n as int), prev as int, n as int) < scan_count(prev, cur, n),
{
    let nn = n as int;
    let ti = t as int;
    let pi = prev as int;
    let dd = ti - pi;
    let a = ti % nn;
    let b = pi % nn;
    let q = ti / nn;
    let p = pi / nn;
    vstd::arithmetic::div_mod::lemma_fundamental_div_mod(ti, nn);
    vstd::arithmetic::div_mod::lemma_fundamental_div_mod(pi, nn);
    vstd::arithmetic::div_mod::lemma_fundamental_div_mod(dd, nn);
    let qd = dd / nn;
    let rd = dd % nn;
    assert(0 <= rd < nn);
    assert(0 <= a < nn && 0 <= b < nn);
    let big_q = qd + p - q + 1;
    assert(a + nn - b == big_q * nn + rd) by (nonlinear_arith)
        requires
            ti == nn * q + a,
            pi == nn * p + b,
            dd == nn * qd + rd,
            dd == ti - pi,
            big_q == qd + p - q + 1,
    ;
    vstd::arithmetic::div_mod::lemma_fundamental_div_mod_converse_mod(a + nn - b, nn, big_q, rd);
    assert(scan_offset(a, pi, nn) == rd);
    if dd < nn {
        vstd::arithmetic::div_mod::lemma_small_mod(dd as nat, nn as nat);
    }
}

/// A timer is found by the polls that cover its deadline's tick: after scheduling
/// a timer whose deadline is at or after the wheel's start, a poll over the ticks
/// `prev..=cur` that contain the deadline's tick counted from the start scans the
/// timer's spoke.
pub proof fn lemma_scheduled_spoke_is_scanned<T>(w: WheelState<T>, deadline_ns: u64, prev: u64, cur: u64)
    requires
        w.wf(),
        deadline_ns >= w.start_time_ns,
        prev <= (deadline_ns - w.start_time_ns) / vstd::arithmetic::power2::pow2(w.tick_shift as nat) as int <= cur,
    ensures
        scan_offset(schedule_id(w, deadline_ns).0 as int, prev as int, w.num_spokes as int) < scan_count(
            prev,
            cur,
            w.num_spokes,
        ),
{
    lemma_spoke_of_relative_tick(w, deadline_ns);
    vstd::arithmetic::power2::lemma_pow2_pos(w.tick_shift as nat);
    let t = ((deadline_ns - w.start_time_ns) / vstd::arithmetic::power2::pow2(w.tick_shift as nat) as int) as u64;
    assert(t as int <= deadline_ns);
    lemma_tick_spoke_scanned(t, prev, cur, w.num_spokes);
}

} // verus!
