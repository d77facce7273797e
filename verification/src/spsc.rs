use vstd::prelude::*;

use vstd::arithmetic::power2::pow2;
use vstd::std_specs::bits::u64_trailing_zeros;

use crate::seqs::count_true;
use crate::wheel::{is_pow2, next_pow2_spec};

verus! {

/// Why a push was refused; the refused value is handed back.
#[derive(Debug, PartialEq, Eq)]
pub enum PushError<T> {
    Full(T),
    Closed(T),
}

/// Why a pop returned nothing.
#[derive(Debug, Clone, Copy, PartialEq, Eq, Structural)]
pub enum PopError {
    Empty,
    Closed,
}

/// Highest position a queue can reach: positions live in the low 63 bits, the top
/// bit of the producer word is the close flag.
pub const MAX_POSITION: u64 = 0x7FFF_FFFF_FFFF_FFFF;

/// Runtime configuration of a segmented bounded queue: `2^p` items per segment,
/// `2^num_segs_p2` directory slots, capacity one less than their product.
#[derive(Clone, Copy, Debug)]
pub struct DynSpscConfig {
    pub p: usize,
    pub num_segs_p2: usize,
    pub max_pooled_segments: usize,
    pub seg_mask: usize,
    pub dir_mask: usize,
    pub capacity: usize,
}

/// `max(x, 1)`.
pub open spec fn at_least_one(x: usize) -> nat {
    if x == 0 {
        1
    } else {
        x as nat
    }
}

impl DynSpscConfig {
    /// The masks and capacity agree with the two exponents.
    pub open spec fn wf(&self) -> bool {
        &&& self.p + self.num_segs_p2 <= 63
        &&& self.seg_mask + 1 == pow2(self.p as nat)
        &&& self.dir_mask + 1 == pow2(self.num_segs_p2 as nat)
        &&& self.capacity + 1 == pow2(self.p as nat) * pow2(self.num_segs_p2 as nat)
    }

    /// The configuration `new` and `with_max_pooled` build.
    pub open spec fn from_exponents(p: usize, num_segs_p2: usize, max_pooled_segments: usize) -> DynSpscConfig {
        let p1 = at_least_one(p);
        let q1 = at_least_one(num_segs_p2);
        DynSpscConfig {
            p: p1 as usize,
            num_segs_p2: q1 as usize,
            max_pooled_segments,
            seg_mask: (pow2(p1) - 1) as usize,
            dir_mask: (pow2(q1) - 1) as usize,
            capacity: (pow2(p1) * pow2(q1) - 1) as usize,
        }
    }

    /// Segments of `2^max(p, 1)` items, a directory of `2^max(num_segs_p2, 1)` slots,
    /// and no pooled segments kept.
    pub fn new(p: usize, num_segs_p2: usize) -> (c: Self)
        requires
            p + num_segs_p2 <= 63,
            at_least_one(p) + at_least_one(num_segs_p2) < usize::BITS,
        ensures
            c == Self::from_exponents(p, num_segs_p2, 0),
            c.wf(),
    {
        Self::with_max_pooled(p, num_segs_p2, 0)
    }

    /// As `new`, keeping up to `max_pooled_segments` consumed segments for reuse.
    pub fn with_max_pooled(p: usize, num_segs_p2: usize, max_pooled_segments: usize) -> (c: Self)
        requires
            p + num_segs_p2 <= 63,
            at_least_one(p) + at_least_one(num_segs_p2) < usize::BITS,
        ensures
            c == Self::from_exponents(p, num_segs_p2, max_pooled_segments),
            c.wf(),
    {
        let p = if p < 1 {
            1
        } else {
            p
        };
        let num_segs_p2 = if num_segs_p2 < 1 {
            1
        } else {
            num_segs_p2
        };
        proof {
            lemma_shl_pow2(p);
            lemma_shl_pow2(num_segs_p2);
            vstd::arithmetic::power2::lemma_pow2_adds(p as nat, num_segs_p2 as nat);
            lemma_pow2_below_bits((p + num_segs_p2) as nat);
        }
        let seg_size = 1usize << p;
        let num_segs = 1usize << num_segs_p2;
        let seg_mask = seg_size - 1;
        let dir_mask = num_segs - 1;
        let capacity = seg_size * num_segs - 1;
        DynSpscConfig { p, num_segs_p2, max_pooled_segments, seg_mask, dir_mask, capacity }
    }

    /// A configuration from a page size and a segment count as the code computes
    /// them: the page size is `min(page_size, 16)` rounded up to a power of two, the
    /// segment count `min(num_segments, 1)` rounded up (always 1), and the pool limit
    /// is capped by the segment count.
    pub fn with_capacity(page_size: usize, num_segments: usize, max_pooled_segments: usize) -> (c: Self)
        ensures
            c.wf(),
            ({
                let page = next_pow2_spec(if page_size < 16 {
                    page_size as int
                } else {
                    16
                });
                let segs = next_pow2_spec(if num_segments < 1 {
                    num_segments as int
                } else {
                    1
                });
                &&& segs == 1
                &&& c.seg_mask == page - 1
                &&& c.dir_mask == segs - 1
                &&& c.capacity == page * segs - 1
                &&& c.max_pooled_segments == if max_pooled_segments < segs {
                    max_pooled_segments as int
                } else {
                    segs
                }
                &&& pow2(c.p as nat) == page
                &&& c.num_segs_p2 == 0
            }),
    {
        let ghost old_page = page_size;
        let ghost old_segments = num_segments;
        let page_size = crate::wheel::next_power_of_two(
            if page_size < 16 {
                page_size
            } else {
                16
            },
        );
        let num_segments = crate::wheel::next_power_of_two(
            if num_segments < 1 {
                num_segments
            } else {
                1
            },
        );
        let max_pooled_segments = if max_pooled_segments < num_segments {
            max_pooled_segments
        } else {
            num_segments
        };
        proof {
            lemma_next_pow2_small(if old_page < 16 {
                old_page as int
            } else {
                16
            });
            lemma_next_pow2_small(if old_segments < 1 {
                old_segments as int
            } else {
                1
            });
            lemma_small_pow2_cases(page_size as int);
            lemma_small_pow2_cases(num_segments as int);
        }
        let p = (page_size as u64).trailing_zeros() as usize;
        let num_segs_p2 = (num_segments as u64).trailing_zeros() as usize;
        proof {
            lemma_tz_small(page_size as u64);
            lemma_tz_small(num_segments as u64);
            vstd::arithmetic::power2::lemma2_to64();
        }
        DynSpscConfig {
            p,
            num_segs_p2,
            max_pooled_segments,
            seg_mask: page_size - 1,
            dir_mask: num_segments - 1,
            capacity: page_size * num_segments - 1,
        }
    }

    /// Items per segment.
    pub fn seg_size(&self) -> (r: usize)
        requires
            self.seg_mask < usize::MAX,
        ensures
            r == self.seg_mask + 1,
    {
        self.seg_mask + 1
    }

    /// Number of directory slots.
    pub fn num_segs(&self) -> (r: usize)
        requires
            self.dir_mask < usize::MAX,
        ensures
            r == self.dir_mask + 1,
    {
        self.dir_mask + 1
    }

    /// Mask of the offset within a segment.
    pub fn seg_mask(&self) -> (r: usize)
        ensures
            r == self.seg_mask,
    {
        self.seg_mask
    }

    /// Mask of the directory slot.
    pub fn dir_mask(&self) -> (r: usize)
        ensures
            r == self.dir_mask,
    {
        self.dir_mask
    }

    /// Maximum number of queued items.
    pub fn capacity(&self) -> (r: usize)
        ensures
            r == self.capacity,
    {
        self.capacity
    }
}

proof fn lemma_pow2_below_bits(k: nat)
    requires
        k < usize::BITS,
    ensures
        pow2(k) <= usize::MAX,
        pow2(k) >= 1,
{
    vstd::arithmetic::power2::lemma_pow2_pos(k);
    vstd::arithmetic::power2::lemma2_to64();
    if usize::BITS == 32 {
        vstd::arithmetic::power2::lemma_pow2_strictly_increases(k, 32);
    } else {
        vstd::arithmetic::power2::lemma_pow2_strictly_increases(k, 64);
    }
}

proof fn lemma_shl_pow2(k: usize)
    requires
        k < usize::BITS,
    ensures
        1usize << k == pow2(k as nat),
        pow2(k as nat) <= usize::MAX,
        pow2(k as nat) >= 1,
{
    lemma_pow2_below_bits(k as nat);
    vstd::bits::lemma_usize_shl_is_mul(1, k);
    vstd::arithmetic::power2::lemma_pow2(k as nat);
    vstd::arithmetic::power::lemma_pow_positive(2, k as nat);
}

/// Rounding up to a power of two stays within 16 for values up to 16.
proof fn lemma_next_pow2_small(x: int)
    requires
        x <= 16,
    ensures
        next_pow2_spec(x) <= 16,
        x <= 1 ==> next_pow2_spec(x) == 1,
{
    reveal_with_fuel(crate::wheel::pow2_at_least, 6);
}

/// The powers of two up to 16.
proof fn lemma_small_pow2_cases(x: int)
    requires
        is_pow2(x),
        x <= 16,
    ensures
        x == 1 || x == 2 || x == 4 || x == 8 || x == 16,
{
    let k = choose|k: nat| pow2(k) == x;
    vstd::arithmetic::power2::lemma2_to64();
    if k > 4 {
        vstd::arithmetic::power2::lemma_pow2_strictly_increases(4, k);
    }
}

/// Trailing zeros of the powers of two up to 16.
proof fn lemma_tz_small(x: u64)
    requires
        x == 1 || x == 2 || x == 4 || x == 8 || x == 16,
    ensures
        pow2(u64_trailing_zeros(x) as nat) == x,
        u64_trailing_zeros(x) <= 4,
{
    vstd::std_specs::bits::axiom_u64_trailing_zeros(x);
    vstd::arithmetic::power2::lemma2_to64();
    let t = u64_trailing_zeros(x) as u64;
    assert(t <= 64);
    if t == 64 {
        assert(x == 0);
    }
    assert((x >> t) & 1u64 == 1u64);
    assert(t > 0 ==> (x >> 0u64) & 1u64 == 0u64);
    assert(t > 1 ==> (x >> 1u64) & 1u64 == 0u64);
    assert(t > 2 ==> (x >> 2u64) & 1u64 == 0u64);
    assert(t > 3 ==> (x >> 3u64) & 1u64 == 0u64);
    assert(t > 4 ==> (x >> 4u64) & 1u64 == 0u64);
    assert((x == 1 ==> t == 0) && (x == 2 ==> t == 1) && (x == 4 ==> t == 2) && (x == 8 ==> t == 3) && (x
        == 16 ==> t == 4)) by (bit_vector)
        requires
            x == 1 || x == 2 || x == 4 || x == 8 || x == 16,
            t < 64,
            (x >> t) & 1u64 == 1u64,
            t > 0 ==> (x >> 0u64) & 1u64 == 0u64,
            t > 1 ==> (x >> 1u64) & 1u64 == 0u64,
            t > 2 ==> (x >> 2u64) & 1u64 == 0u64,
            t > 3 ==> (x >> 3u64) & 1u64 == 0u64,
            t > 4 ==> (x >> 4u64) & 1u64 == 0u64,
    ;
}


/// The abstract state of a bounded queue: the queued items in order, how many items
/// were ever pushed (the producer position), the close flag, and the segment
/// directory with its allocation bookkeeping.
pub struct DynSpscState<T> {
    pub config: DynSpscConfig,
    pub items: Seq<T>,
    pub head: u64,
    pub closed: bool,
    pub segments: Seq<bool>,
    pub sealable_lo: u64,
    pub sealable_hi: u64,
    pub fresh_allocations: u64,
    pub pool_reuses: u64,
    pub allocated_segments: u64,
}

impl<T> DynSpscState<T> {
    /// The consumer position.
    pub open spec fn tail(&self) -> int {
        self.head - self.items.len()
    }

    /// The queue's consistency.
    pub open spec fn wf(&self) -> bool {
        &&& self.config.wf()
        &&& self.config.capacity < usize::MAX
        &&& self.items.len() <= self.config.capacity
        &&& self.items.len() <= self.head
        &&& self.head <= MAX_POSITION
        &&& self.segments.len() == self.config.dir_mask + 1
        &&& self.allocated_segments == count_true(self.segments)
    }

    /// `self` and `other` hold the same items at the same positions, with the same
    /// configuration and close flag.
    pub open spec fn same_data(&self, other: Self) -> bool {
        &&& self.config == other.config
        &&& self.items == other.items
        &&& self.head == other.head
        &&& self.closed == other.closed
    }
}

/// The directory slot of the segment that holds position `pos`.
pub open spec fn seg_of(c: DynSpscConfig, pos: u64) -> int {
    ((pos >> (c.p as u64)) & (c.dir_mask as u64)) as int
}

/// A bounded single-producer single-consumer queue whose storage is a directory of
/// lazily allocated segments; consumed segments are sealed into a pool that the
/// producer reuses or that is trimmed down to a configured size.
pub struct DynSpsc<T> {
    config: DynSpscConfig,
    items: std::collections::VecDeque<T>,
    head: u64,
    closed: bool,
    segs: Vec<bool>,
    sealable_lo: u64,
    sealable_hi: u64,
    fresh_allocations: u64,
    pool_reuses: u64,
    total_allocated_segments: u64,
}

impl<T> View for DynSpsc<T> {
    type V = DynSpscState<T>;

    closed spec fn view(&self) -> DynSpscState<T> {
        DynSpscState {
            config: self.config,
            items: self.items@,
            head: self.head,
            closed: self.closed,
            segments: self.segs@,
            sealable_lo: self.sealable_lo,
            sealable_hi: self.sealable_hi,
            fresh_allocations: self.fresh_allocations,
            pool_reuses: self.pool_reuses,
            allocated_segments: self.total_allocated_segments,
        }
    }
}

proof fn lemma_and_le(x: u64, m: u64)
    ensures
        x & m <= m,
{
    assert(x & m <= m) by (bit_vector);
}

impl<T> DynSpsc<T> {
    /// The queue's consistency.
    pub open spec fn wf(&self) -> bool {
        self@.wf()
    }

    /// An empty, open queue with no segment allocated.
    pub fn new_with_config(config: DynSpscConfig) -> (q: Self)
        requires
            config.wf(),
            config.capacity < usize::MAX,
        ensures
            q.wf(),
            q@.config == config,
            q@.items.len() == 0,
            q@.head == 0,
            !q@.closed,
            q@.segments == Seq::new((config.dir_mask + 1) as nat, |k: int| false),
            q@.sealable_lo == 0 && q@.sealable_hi == 0,
            q@.fresh_allocations == 0 && q@.pool_reuses == 0 && q@.allocated_segments == 0,
    {
        proof {
            vstd::arithmetic::power2::lemma_pow2_pos(config.p as nat);
            vstd::arithmetic::power2::lemma_pow2_pos(config.num_segs_p2 as nat);
            vstd::arithmetic::mul::lemma_mul_increases(
                pow2(config.p as nat) as int,
                pow2(config.num_segs_p2 as nat) as int,
            );
            crate::seqs::lemma_count_true_none((config.dir_mask + 1) as nat);
        }
        let num_segs = config.num_segs();
        let mut segs: Vec<bool> = Vec::new();
        while segs.len() < num_segs
            invariant
                segs.len() <= num_segs,
                forall|k: int| 0 <= k < segs.len() ==> segs@[k] == false,
            decreases num_segs - segs.len(),
        {
            segs.push(false);
        }
        proof {
            assert(segs@ =~= Seq::new((config.dir_mask + 1) as nat, |k: int| false));
        }
        DynSpsc {
            config,
            items: std::collections::VecDeque::new(),
            head: 0,
            closed: false,
            segs,
            sealable_lo: 0,
            sealable_hi: 0,
            fresh_allocations: 0,
            pool_reuses: 0,
            total_allocated_segments: 0,
        }
    }

    /// Maximum number of queued items.
    pub fn capacity(&self) -> (r: usize)
        ensures
            r == self@.config.capacity,
    {
        self.config.capacity()
    }

    /// Items per segment.
    pub fn seg_size(&self) -> (r: usize)
        requires
            self.wf(),
        ensures
            r == self@.config.seg_mask + 1,
    {
        proof {
            self.lemma_masks();
        }
        self.config.seg_size()
    }

    /// Number of directory slots.
    pub fn num_segs(&self) -> (r: usize)
        requires
            self.wf(),
        ensures
            r == self@.config.dir_mask + 1,
    {
        proof {
            self.lemma_masks();
        }
        self.config.num_segs()
    }

    proof fn lemma_masks(&self)
        requires
            self.wf(),
        ensures
            self.config.seg_mask <= self.config.capacity,
            self.config.dir_mask <= self.config.capacity,
            self.config.p < 64,
    {
        vstd::arithmetic::power2::lemma_pow2_pos(self.config.p as nat);
        vstd::arithmetic::power2::lemma_pow2_pos(self.config.num_segs_p2 as nat);
        vstd::arithmetic::mul::lemma_mul_increases(
            pow2(self.config.p as nat) as int,
            pow2(self.config.num_segs_p2 as nat) as int,
        );
        vstd::arithmetic::mul::lemma_mul_increases(
            pow2(self.config.num_segs_p2 as nat) as int,
            pow2(self.config.p as nat) as int,
        );
    }

    /// The producer's position: how many items were ever pushed.
    pub fn push_position(&self) -> (r: u64)
        ensures
            r == self@.head,
    {
        self.head
    }

    /// Number of queued items.
    pub fn len(&self) -> (r: usize)
        requires
            self.wf(),
        ensures
            r == self@.items.len(),
    {
        self.items.len()
    }

    /// Whether no item is queued.
    pub fn is_empty(&self) -> (r: bool)
        requires
            self.wf(),
        ensures
            r == (self@.items.len() == 0),
    {
        self.items.len() == 0
    }

    /// Whether the queue holds `capacity` items.
    pub fn is_full(&self) -> (r: bool)
        requires
            self.wf(),
        ensures
            r == (self@.items.len() == self@.config.capacity),
    {
        self.items.len() == self.config.capacity
    }

    /// Whether the queue was closed.
    pub fn is_closed(&self) -> (r: bool)
        ensures
            r == self@.closed,
    {
        self.closed
    }

    /// Closes the queue: later pushes are refused, queued items can still be popped.
    pub fn close(&mut self)
        requires
            old(self).wf(),
        ensures
            final(self).wf(),
            final(self)@ == (DynSpscState { closed: true, ..old(self)@ }),
    {
        self.closed = true;
    }

    /// Number of segments allocated fresh (pool misses).
    pub fn fresh_allocations(&self) -> (r: u64)
        ensures
            r == self@.fresh_allocations,
    {
        self.fresh_allocations
    }

    /// Number of segments taken from the pool (pool hits).
    pub fn pool_reuses(&self) -> (r: u64)
        ensures
            r == self@.pool_reuses,
    {
        self.pool_reuses
    }

    /// Sets both allocation counters to zero.
    pub fn reset_allocation_stats(&mut self)
        requires
            old(self).wf(),
        ensures
            final(self).wf(),
            final(self)@ == (DynSpscState { fresh_allocations: 0, pool_reuses: 0, ..old(self)@ }),
    {
        self.fresh_allocations = 0;
        self.pool_reuses = 0;
    }

    /// Number of segments currently allocated.
    pub fn allocated_segments(&self) -> (r: u64)
        requires
            self.wf(),
        ensures
            r == self@.allocated_segments,
            r == count_true(self@.segments),
    {
        self.total_allocated_segments
    }

    /// Bytes held by the allocated segments.
    pub fn allocated_memory_bytes(&self) -> (r: usize)
        requires
            self.wf(),
            self@.allocated_segments * (self@.config.seg_mask + 1) * vstd::layout::size_of::<T>()
                <= usize::MAX,
        ensures
            r == self@.allocated_segments * (self@.config.seg_mask + 1) * vstd::layout::size_of::<T>(),
    {
        proof {
            self.lemma_masks();
            crate::seqs::lemma_count_true_bound(self.segs@);
        }
        let segments = self.total_allocated_segments as usize;
        let seg_size = self.config.seg_size();
        let elem = core::mem::size_of::<T>();
        proof {
            let a = segments as int;
            let b = seg_size as int;
            let c = elem as int;
            assert(a * b <= a * b * c || c == 0) by (nonlinear_arith)
                requires
                    a >= 0,
                    b >= 0,
                    c >= 0,
            ;
            if c == 0 {
                assert(a * b * c == 0) by (nonlinear_arith)
                    requires
                        c == 0,
                ;
            }
        }
        if elem == 0 {
            proof {
                assert(segments as int * seg_size as int * 0int == 0) by (nonlinear_arith);
            }
            return 0;
        }
        segments * seg_size * elem
    }
}


/// The counted prefix of a directory grows by one slot at a time.
proof fn lemma_count_true_take(s: Seq<bool>, i: int)
    requires
        0 <= i < s.len(),
    ensures
        count_true(s.take(i + 1)) == count_true(s.take(i)) + if s[i] {
            1int
        } else {
            0int
        },
{
    assert(s.take(i + 1).drop_last() =~= s.take(i));
}

impl<T> DynSpsc<T> {
    proof fn lemma_slot(&self, pos: u64)
        requires
            self.wf(),
        ensures
            0 <= seg_of(self.config, pos) < self.segs@.len(),
            self.config.p < 64,
    {
        self.lemma_masks();
        lemma_and_le(pos >> (self.config.p as u64), self.config.dir_mask as u64);
    }

    /// Makes sure the segment of directory slot `seg_idx` is allocated: kept if it
    /// is, else taken from the sealed pool (oldest first; pooled slots found empty
    /// lead to a fresh allocation, and while the pool is over its limit pooled
    /// segments are freed instead of reused), else freshly allocated.
    #[verifier::spinoff_prover]
    fn ensure_segment_for(&mut self, seg_idx: usize)
        requires
            old(self).wf(),
            seg_idx < old(self)@.segments.len(),
        ensures
            final(self).wf(),
            final(self)@.same_data(old(self)@),
            final(self)@.segments[seg_idx as int],
            old(self)@.segments[seg_idx as int] ==> final(self)@ == old(self)@,
    {
        if self.segs[seg_idx] {
            return;
        }
        proof {
            self.lemma_masks();
            crate::seqs::lemma_count_true_bound(self.segs@);
        }
        let ghost o = self@;
        let mut hi = self.sealable_hi;
        let mut lo = self.sealable_lo;
        let dir_mask = self.config.dir_mask;
        let num_segs = self.config.dir_mask + 1;
        let max_pooled = self.config.max_pooled_segments;
        let should_deallocate = if max_pooled < num_segs {
            hi.saturating_sub(lo) > max_pooled as u64
        } else {
            false
        };
        while lo < hi
            invariant
                self.wf(),
                self@.same_data(o),
                o == old(self)@,
                !o.segments[seg_idx as int],
                seg_idx < self.segs@.len(),
                !self.segs@[seg_idx as int],
                hi == self.sealable_hi,
                dir_mask == self.config.dir_mask,
                max_pooled == self.config.max_pooled_segments,
                self.config.dir_mask <= self.config.capacity,
            decreases hi - lo,
        {
            proof {
                lemma_and_le(lo, dir_mask as u64);
            }
            let src_idx = (lo & (dir_mask as u64)) as usize;
            self.sealable_lo = lo + 1;
            let q = self.segs[src_idx];
            proof {
                crate::seqs::lemma_count_true_update(self.segs@, src_idx as int, false);
            }
            self.segs.set(src_idx, false);
            if !q {
                proof {
                    crate::seqs::lemma_count_true_update(self.segs@, seg_idx as int, true);
                    crate::seqs::lemma_count_true_bound(self.segs@.update(seg_idx as int, true));
                }
                self.segs.set(seg_idx, true);
                self.fresh_allocations = self.fresh_allocations.wrapping_add(1);
                self.total_allocated_segments = self.total_allocated_segments + 1;
                return;
            } else if should_deallocate {
                let new_hi = self.sealable_hi;
                let new_lo = self.sealable_lo;
                let new_pool_size = new_hi.saturating_sub(new_lo);
                if new_pool_size <= max_pooled as u64 {
                    proof {
                        crate::seqs::lemma_count_true_update(self.segs@, seg_idx as int, true);
                    }
                    self.segs.set(seg_idx, true);
                    self.pool_reuses = self.pool_reuses.wrapping_add(1);
                    self.total_allocated_segments = self.total_allocated_segments;
                    return;
                }
                self.total_allocated_segments = self.total_allocated_segments - 1;
                lo = new_lo;
                hi = new_hi;
            } else {
                proof {
                    crate::seqs::lemma_count_true_update(self.segs@, seg_idx as int, true);
                }
                self.segs.set(seg_idx, true);
                self.pool_reuses = self.pool_reuses.wrapping_add(1);
                return;
            }
        }
        proof {
            crate::seqs::lemma_count_true_update(self.segs@, seg_idx as int, true);
            crate::seqs::lemma_count_true_bound(self.segs@.update(seg_idx as int, true));
        }
        self.segs.set(seg_idx, true);
        self.fresh_allocations = self.fresh_allocations.wrapping_add(1);
        self.total_allocated_segments = self.total_allocated_segments + 1;
    }

    /// Frees pooled segments, oldest first, until at most `target_pool_size` remain
    /// allocated; only when the pool is over that size, the queue is empty (as the
    /// consumer last published its position `stored_tail`) and more segments than
    /// that are allocated. Returns the number freed.
    fn try_deallocate_pool_to_at(&mut self, target_pool_size: usize, stored_tail: u64) -> (r: u64)
        requires
            old(self).wf(),
        ensures
            final(self).wf(),
            final(self)@.same_data(old(self)@),
            ({
                let o = old(self)@;
                if o.sealable_hi <= o.sealable_lo + target_pool_size || stored_tail != o.head
                    || count_true(o.segments) <= target_pool_size {
                    r == 0 && final(self)@ == o
                } else {
                    &&& r <= count_true(o.segments) - target_pool_size
                    &&& final(self)@.allocated_segments == o.allocated_segments - r
                    &&& final(self)@.fresh_allocations == o.fresh_allocations
                    &&& final(self)@.pool_reuses == o.pool_reuses
                    &&& final(self)@.sealable_hi == o.sealable_hi
                    &&& forall|k: int| 0 <= k < o.segments.len() && #[trigger] final(self)@.segments[k] ==> o.segments[k]
                    &&& r == pool_trimmed(o, target_pool_size).1
                    &&& final(self)@ == pool_trimmed(o, target_pool_size).0
                }
            }),
    {
        let hi = self.sealable_hi;
        let lo = self.sealable_lo;
        let pool_size = hi.saturating_sub(lo);
        if pool_size <= target_pool_size as u64 {
            return 0;
        }
        if stored_tail != self.head {
            return 0;
        }
        proof {
            self.lemma_masks();
            crate::seqs::lemma_count_true_bound(self.segs@);
        }
        let dir_mask = self.config.dir_mask;
        let num_segs = self.config.dir_mask + 1;
        let mut total_allocated: u64 = 0;
        let mut i: usize = 0;
        while i < num_segs
            invariant
                self.wf(),
                num_segs == self.segs@.len(),
                i <= num_segs,
                total_allocated == count_true(self.segs@.take(i as int)),
            decreases num_segs - i,
        {
            proof {
                lemma_count_true_take(self.segs@, i as int);
                crate::seqs::lemma_count_true_bound(self.segs@.take(i as int + 1));
            }
            if self.segs[i] {
                total_allocated = total_allocated + 1;
            }
            i = i + 1;
        }
        proof {
            assert(self.segs@.take(num_segs as int) =~= self.segs@);
        }
        if total_allocated <= target_pool_size as u64 {
            return 0;
        }
        let ghost o = self@;
        let need_to_dealloc = total_allocated - target_pool_size as u64;
        let mut deallocated_count: u64 = 0;
        let mut current_lo = lo;
        while current_lo < hi && deallocated_count < need_to_dealloc
            invariant
                self.wf(),
                self@.same_data(o),
                dir_mask == self.config.dir_mask,
                self.config.dir_mask <= self.config.capacity,
                deallocated_count <= need_to_dealloc,
                need_to_dealloc == count_true(o.segments) - target_pool_size,
                count_true(self@.segments) == count_true(o.segments) - deallocated_count,
                o.allocated_segments == count_true(o.segments),
                self@.fresh_allocations == o.fresh_allocations,
                self@.pool_reuses == o.pool_reuses,
                self@.sealable_hi == o.sealable_hi,
                self@.segments.len() == o.segments.len(),
                forall|k: int| 0 <= k < o.segments.len() && #[trigger] self@.segments[k] ==> o.segments[k],
                self@.sealable_lo == current_lo,
                lo == o.sealable_lo,
                hi == o.sealable_hi,
                o.allocated_segments == self@.allocated_segments + deallocated_count,
                ({
                    let total = freed_from(o.segments, lo, hi, need_to_dealloc as int, dir_mask as u64);
                    let now = freed_from(
                        self@.segments,
                        current_lo,
                        hi,
                        need_to_dealloc - deallocated_count,
                        dir_mask as u64,
                    );
                    now.0 == total.0 && now.1 == total.1 && now.2 + deallocated_count == total.2
                }),
                self@ == (DynSpscState {
                    segments: self@.segments,
                    sealable_lo: self@.sealable_lo,
                    allocated_segments: self@.allocated_segments,
                    ..o
                }),
            decreases hi - current_lo,
        {
            proof {
                lemma_and_le(current_lo, dir_mask as u64);
            }
            let dir_idx = (current_lo & (dir_mask as u64)) as usize;
            self.sealable_lo = current_lo + 1;
            if self.segs[dir_idx] {
                proof {
                    crate::seqs::lemma_count_true_update(self.segs@, dir_idx as int, false);
                }
                self.segs.set(dir_idx, false);
                deallocated_count = deallocated_count + 1;
                self.total_allocated_segments = self.total_allocated_segments - 1;
            }
            current_lo = current_lo + 1;
        }
        deallocated_count
    }

    /// Records that segment `s_done` was fully consumed and, unless the pool is
    /// unbounded, trims the pool to its configured size.
    fn seal_after(&mut self, s_done: u64, stored_tail: u64)
        requires
            old(self).wf(),
            s_done < u64::MAX,
            stored_tail != old(self)@.head,
        ensures
            final(self).wf(),
            final(self)@ == (DynSpscState { sealable_hi: (s_done + 1) as u64, ..old(self)@ }),
    {
        let new_hi = s_done + 1;
        self.sealable_hi = new_hi;
        if self.config.max_pooled_segments != usize::MAX {
            let _ = self.try_deallocate_pool_to_at(self.config.max_pooled_segments, stored_tail);
        }
    }

    /// Deallocates pooled segments down to `max_pooled_segments` (nothing when the
    /// pool is unbounded); see `deallocate_to`.
    pub fn try_deallocate_excess(&mut self) -> (r: u64)
        requires
            old(self).wf(),
        ensures
            final(self).wf(),
            final(self)@.same_data(old(self)@),
            old(self)@.config.max_pooled_segments == usize::MAX ==> r == 0 && final(self)@ == old(self)@,
            old(self)@.config.max_pooled_segments != usize::MAX ==> deallocated(
                old(self)@,
                old(self)@.config.max_pooled_segments,
                r,
                final(self)@,
            ),
    {
        if self.config.max_pooled_segments == usize::MAX {
            return 0;
        }
        self.deallocate_to(self.config.max_pooled_segments)
    }

    /// Frees pooled segments, oldest first, down to `target_pool_size` allocated
    /// segments; only when the pool holds more than that, the queue is empty, and
    /// more segments than that are allocated. Returns the number freed.
    pub fn deallocate_to(&mut self, target_pool_size: usize) -> (r: u64)
        requires
            old(self).wf(),
        ensures
            final(self).wf(),
            final(self)@.same_data(old(self)@),
            deallocated(old(self)@, target_pool_size, r, final(self)@),
    {
        let tail = self.head - self.items.len() as u64;
        self.try_deallocate_pool_to_at(target_pool_size, tail)
    }
}

impl<T> DynSpsc<T> {
    /// Pushes `item`; a closed queue refuses it with `Closed`, a full one with `Full`.
    pub fn try_push(&mut self, item: T) -> (r: Result<(), PushError<T>>)
        requires
            old(self).wf(),
            old(self)@.head < MAX_POSITION,
        ensures
            final(self).wf(),
            pushed_one(old(self)@, item, r, final(self)@),
    {
        if self.closed {
            return Err(PushError::Closed(item));
        }
        if self.items.len() == self.config.capacity {
            return Err(PushError::Full(item));
        }
        proof {
            self.lemma_slot(self.head);
        }
        let seg_idx = ((self.head >> (self.config.p as u64)) & (self.config.dir_mask as u64)) as usize;
        self.ensure_segment_for(seg_idx);
        self.items.push_back(item);
        self.head = self.head + 1;
        Ok(())
    }

    /// Pops the oldest item; `None` when the queue is empty, closed or not.
    pub fn try_pop(&mut self) -> (r: Option<T>)
        requires
            old(self).wf(),
        ensures
            final(self).wf(),
            popped_one(old(self)@, r, final(self)@),
    {
        if self.items.len() == 0 {
            return None;
        }
        let stored_tail = self.head - self.items.len() as u64;
        let x = self.items.pop_front().unwrap();
        let i = stored_tail + 1;
        self.pass_position(i, stored_tail);
        Some(x)
    }

    /// After the consumer moved to position `i`, seals the segment it left if `i`
    /// starts a new segment.
    fn pass_position(&mut self, i: u64, stored_tail: u64)
        requires
            old(self).wf(),
            stored_tail != old(self)@.head,
            i <= old(self)@.head,
        ensures
            final(self).wf(),
            final(self)@.same_data(old(self)@),
            (i & (old(self)@.config.seg_mask as u64)) == 0 && i > 0 ==> final(self)@ == (DynSpscState {
                sealable_hi: i >> (old(self)@.config.p as u64),
                ..old(self)@
            }),
            !((i & (old(self)@.config.seg_mask as u64)) == 0 && i > 0) ==> final(self)@ == old(self)@,
    {
        proof {
            self.lemma_masks();
        }
        if (i & (self.config.seg_mask as u64)) == 0 && i > 0 {
            let p = self.config.p as u64;
            proof {
                lemma_boundary_segment(i, p);
            }
            let s_done = (i >> p).wrapping_sub(1);
            self.seal_after(s_done, stored_tail);
        }
    }

    /// Pops up to `dst.len()` items into the front of `dst`, oldest first. An empty
    /// queue gives `Closed` once closed, else `Empty`.
    pub fn try_pop_n(&mut self, dst: &mut [T]) -> (r: Result<usize, PopError>)
        requires
            old(self).wf(),
        ensures
            final(self).wf(),
            popped_into(old(self)@, old(dst)@, 0, r, final(self)@, final(dst)@),
    {
        self.pop_into(dst, 0)
    }

    /// Pops up to `dst.len() - start` items into `dst` from index `start` on, oldest
    /// first. An empty queue gives `Closed` once closed, else `Empty`.
    pub(crate) fn pop_into(&mut self, dst: &mut [T], start: usize) -> (r: Result<usize, PopError>)
        requires
            old(self).wf(),
            start <= old(dst)@.len(),
        ensures
            final(self).wf(),
            popped_into(old(self)@, old(dst)@, start as int, r, final(self)@, final(dst)@),
    {
        let avail = self.items.len();
        if avail == 0 {
            if self.closed {
                return Err(PopError::Closed);
            }
            return Err(PopError::Empty);
        }
        let ghost o = self@;
        let ghost d0 = dst@;
        let dlen = dst.len();
        let room = dlen - start;
        let n = if room < avail {
            room
        } else {
            avail
        };
        let stored_tail = self.head - self.items.len() as u64;
        let mut i = stored_tail;
        let mut copied: usize = 0;
        while copied < n
            invariant
                self.wf(),
                self@.config == o.config,
                self@.head == o.head,
                self@.closed == o.closed,
                n <= o.items.len(),
                start + n <= d0.len(),
                d0.len() == dlen,
                dst@.len() == d0.len(),
                copied <= n,
                i == stored_tail + copied,
                stored_tail == o.head - o.items.len(),
                o.items.len() > 0,
                self@.items == o.items.skip(copied as int),
                dst@ == d0.take(start as int) + o.items.take(copied as int) + d0.skip(start + copied),
            decreases n - copied,
        {
            let x = self.items.pop_front().unwrap();
            dst[start + copied] = x;
            proof {
                assert(x == o.items[copied as int]);
                assert(self@.items =~= o.items.skip(copied as int + 1));
                assert(dst@ =~= d0.take(start as int) + o.items.take(copied as int + 1) + d0.skip(
                    start + copied + 1,
                ));
            }
            i = i + 1;
            copied = copied + 1;
            self.pass_position(i, stored_tail);
        }
        Ok(copied)
    }
}

/// What pushing `item` does: a closed queue refuses it with `Closed`, a full one
/// with `Full`, both unchanged; otherwise it is queued last and the segment of its
/// position is allocated.
pub open spec fn pushed_one<T>(o: DynSpscState<T>, item: T, r: Result<(), PushError<T>>, f: DynSpscState<T>) -> bool {
    if o.closed {
        r == Err::<(), PushError<T>>(PushError::Closed(item)) && f == o
    } else if o.items.len() == o.config.capacity {
        r == Err::<(), PushError<T>>(PushError::Full(item)) && f == o
    } else {
        &&& r is Ok
        &&& f.items == o.items.push(item)
        &&& f.head == o.head + 1
        &&& f.closed == o.closed
        &&& f.config == o.config
        &&& f.segments[seg_of(o.config, o.head)]
    }
}

/// What popping one item does: nothing on an empty queue; otherwise the oldest item
/// leaves and is returned.
pub open spec fn popped_one<T>(o: DynSpscState<T>, r: Option<T>, f: DynSpscState<T>) -> bool {
    if o.items.len() == 0 {
        r is None && f == o
    } else {
        &&& r == Some(o.items[0])
        &&& f.items == o.items.drop_first()
        &&& f.head == o.head
        &&& f.closed == o.closed
        &&& f.config == o.config
    }
}

/// First in, first out: after a successful push, a pop returns the oldest item (the
/// pushed one when the queue was empty), and the pushed item stays queued behind
/// the rest.
pub proof fn lemma_fifo<T>(
    o: DynSpscState<T>,
    item: T,
    r1: Result<(), PushError<T>>,
    f1: DynSpscState<T>,
    r2: Option<T>,
    f2: DynSpscState<T>,
)
    requires
        pushed_one(o, item, r1, f1),
        popped_one(f1, r2, f2),
        r1 is Ok,
    ensures
        !o.closed,
        o.items.len() == 0 ==> r2 == Some(item) && f2.items.len() == 0,
        o.items.len() > 0 ==> r2 == Some(o.items[0]) && f2.items == o.items.drop_first().push(item),
{
    if o.items.len() == 0 {
        assert(f1.items =~= seq![item]);
    } else {
        assert(f1.items.drop_first() =~= o.items.drop_first().push(item));
    }
}

/// What a pop of up to `dst.len() - start` items into `dst` from index `start` does:
/// on an empty queue `Closed` or `Empty` and nothing changes; otherwise the oldest
/// `n` items, `n` as many as fit and are queued, fill `dst` from `start` on.
pub open spec fn popped_into<T>(
    o: DynSpscState<T>,
    d0: Seq<T>,
    start: int,
    r: Result<usize, PopError>,
    f: DynSpscState<T>,
    d: Seq<T>,
) -> bool {
    if o.items.len() == 0 {
        &&& r == if o.closed {
            Err::<usize, PopError>(PopError::Closed)
        } else {
            Err(PopError::Empty)
        }
        &&& f == o
        &&& d == d0
    } else {
        let n = if d0.len() - start < o.items.len() {
            d0.len() - start
        } else {
            o.items.len() as int
        };
        &&& r == Ok::<usize, PopError>(n as usize)
        &&& f.items == o.items.skip(n)
        &&& f.head == o.head
        &&& f.closed == o.closed
        &&& f.config == o.config
        &&& d == d0.take(start) + o.items.take(n) + d0.skip(start + n)
    }
}

impl<T: Copy> DynSpsc<T> {
    /// Pushes the front of `src`, as many items as there is room for, in order; a
    /// closed queue gives `Closed`, a full one `Full`. Returns how many were pushed.
    pub fn try_push_n(&mut self, src: &[T]) -> (r: Result<usize, PushError<()>>)
        requires
            old(self).wf(),
            old(self)@.head + src@.len() <= MAX_POSITION,
        ensures
            final(self).wf(),
            ({
                let o = old(self)@;
                let free = o.config.capacity - o.items.len();
                let n = if src@.len() < free {
                    src@.len() as int
                } else {
                    free
                };
                if o.closed {
                    r == Err::<usize, PushError<()>>(PushError::Closed(())) && final(self)@ == o
                } else if free == 0 {
                    r == Err::<usize, PushError<()>>(PushError::Full(())) && final(self)@ == o
                } else {
                    &&& r == Ok::<usize, PushError<()>>(n as usize)
                    &&& final(self)@.items == o.items + src@.take(n)
                    &&& final(self)@.head == o.head + n
                    &&& final(self)@.closed == o.closed
                    &&& final(self)@.config == o.config
                }
            }),
    {
        if self.closed {
            return Err(PushError::Closed(()));
        }
        let cap = self.config.capacity;
        let free = cap - self.items.len();
        if free == 0 {
            return Err(PushError::Full(()));
        }
        let ghost o = self@;
        let n = if src.len() < free {
            src.len()
        } else {
            free
        };
        let mut copied: usize = 0;
        while copied < n
            invariant
                self.wf(),
                self@.config == o.config,
                self@.closed == o.closed,
                self@.head == o.head + copied,
                o.head + src@.len() <= MAX_POSITION,
                n <= src@.len(),
                n + o.items.len() <= o.config.capacity,
                copied <= n,
                self@.items == o.items + src@.take(copied as int),
            decreases n - copied,
        {
            proof {
                self.lemma_slot(self.head);
            }
            let seg_idx = ((self.head >> (self.config.p as u64)) & (self.config.dir_mask as u64)) as usize;
            self.ensure_segment_for(seg_idx);
            self.items.push_back(src[copied]);
            self.head = self.head + 1;
            proof {
                assert(self@.items =~= o.items + src@.take(copied as int + 1));
            }
            copied = copied + 1;
        }
        Ok(copied)
    }
}

impl<T: Copy> DynSpsc<T> {
    /// Hands the oldest items to `f`, one segment's worth at a time and at most
    /// `max` in all, and removes as many of each chunk as `f` reports it took
    /// (capped at the chunk's length); stops early when `f` takes less than a whole
    /// chunk. Returns how many items were removed.
    pub fn consume_in_place<F: FnMut(&[T]) -> usize>(&mut self, max: usize, f: F) -> (r: usize)
        requires
            old(self).wf(),
            forall|g: F, s: &[T]| #[trigger] call_requires(g, (s,)),
        ensures
            final(self).wf(),
            consumed(old(self)@, max, r, final(self)@),
            consumed_all_or_short::<T, F>(old(self)@.items, max, r as int),
    {
        let mut f = f;
        self.consume_with(max, &mut f)
    }

    /// `consume_in_place` with the callback borrowed.
    pub(crate) fn consume_with<F: FnMut(&[T]) -> usize>(&mut self, max: usize, f: &mut F) -> (r: usize)
        requires
            old(self).wf(),
            forall|g: F, s: &[T]| #[trigger] call_requires(g, (s,)),
        ensures
            final(self).wf(),
            consumed(old(self)@, max, r, final(self)@),
            consumed_all_or_short::<T, F>(old(self)@.items, max, r as int),
    {
        proof {
            assert(self@.items.skip(0) =~= self@.items);
        }
        if max == 0 {
            return 0;
        }
        let avail = self.items.len();
        if avail == 0 {
            return 0;
        }
        proof {
            self.lemma_masks();
        }
        let ghost o = self@;
        let stored_tail = self.head - self.items.len() as u64;
        let mut t = stored_tail;
        let seg_mask = self.config.seg_mask;
        let seg_size = self.config.seg_mask + 1;
        let mut remaining = if max < avail {
            max
        } else {
            avail
        };
        let mut total_consumed: usize = 0;
        let ghost mut short = false;
        while remaining > 0
            invariant_except_break
                !short,
            invariant
                self.wf(),
                total_consumed + remaining == (if max < o.items.len() {
                    max as int
                } else {
                    o.items.len() as int
                }),
                short ==> stopped_short::<T, F>(o.items, total_consumed as int),
                self@.config == o.config,
                self@.head == o.head,
                self@.closed == o.closed,
                seg_mask == o.config.seg_mask,
                seg_size == seg_mask + 1,
                o.config.seg_mask <= o.config.capacity,
                o.config.capacity < usize::MAX,
                stored_tail == o.head - o.items.len(),
                o.items.len() > 0,
                t == stored_tail + total_consumed,
                total_consumed + remaining <= max,
                total_consumed + remaining <= o.items.len(),
                self@.items == o.items.skip(total_consumed as int),
                forall|g: F, s: &[T]| #[trigger] call_requires(g, (s,)),
            ensures
                remaining == 0 || short,
            decreases remaining,
        {
            proof {
                lemma_and_le(t, seg_mask as u64);
            }
            let off = (t & (seg_mask as u64)) as usize;
            let in_seg = seg_size - off;
            let n = if remaining < in_seg {
                remaining
            } else {
                in_seg
            };
            let mut chunk: Vec<T> = Vec::new();
            let mut k: usize = 0;
            while k < n
                invariant
                    k <= n,
                    n <= remaining,
                    total_consumed + remaining <= o.items.len(),
                    self@.items == o.items.skip(total_consumed as int),
                    chunk@ == self@.items.take(k as int),
                decreases n - k,
            {
                chunk.push(self.items[k]);
                proof {
                    assert(chunk@ =~= self@.items.take(k as int + 1));
                }
                k = k + 1;
            }
            let offered = chunk.as_slice();
            let ghost g0 = *f;
            let reported = (*f)(offered);
            let took = if reported < n {
                reported
            } else {
                n
            };
            proof {
                assert(offered@ == o.items.subrange(total_consumed as int, total_consumed + n));
            }
            if took == 0 {
                proof {
                    assert(call_ensures(g0, (offered,), reported));
                    short = true;
                }
                break;
            }
            let mut j: usize = 0;
            while j < took
                invariant
                    j <= took,
                    took <= n,
                    n <= remaining,
                    total_consumed + remaining <= o.items.len(),
                    self.wf(),
                    self@.config == o.config,
                    self@.head == o.head,
                    self@.closed == o.closed,
                    self@.items == o.items.skip(total_consumed + j),
                decreases took - j,
            {
                let _ = self.items.pop_front();
                proof {
                    assert(self@.items =~= o.items.skip(total_consumed + j + 1));
                }
                j = j + 1;
            }
            t = t + took as u64;
            total_consumed = total_consumed + took;
            remaining = remaining - took;
            self.pass_position(t, stored_tail);
            if took < n {
                proof {
                    assert(call_ensures(g0, (offered,), reported));
                    short = true;
                }
                break;
            }
        }
        total_consumed
    }
}

/// Whether consumption ended because the callback took less than it was offered:
/// some call of it was handed the `s@.len()` items from position `r - n` on and
/// reported `n` of them, fewer than offered, which ended at `r`.
pub open spec fn stopped_short<T, F: FnMut(&[T]) -> usize>(items: Seq<T>, r: int) -> bool {
    exists|g: F, s: &[T], n: usize|
        #[trigger] call_ensures(g, (s,), n) && n < s@.len() && n <= r && r - n + s@.len() <= items.len()
            && s@ == items.subrange(r - n, r - n + s@.len())
}

/// Whether consuming at most `max` of `items` went as far as it could: all that `max`
/// allowed, or up to where the callback took less than it was offered.
pub open spec fn consumed_all_or_short<T, F: FnMut(&[T]) -> usize>(items: Seq<T>, max: usize, r: int) -> bool {
    r == (if max < items.len() {
        max as int
    } else {
        items.len() as int
    }) || stopped_short::<T, F>(items, r)
}

/// What consuming at most `max` items does: the first `r` items, no more than
/// `max`, leave the queue; nothing else of its contents changes.
pub open spec fn consumed<T>(o: DynSpscState<T>, max: usize, r: usize, f: DynSpscState<T>) -> bool {
    &&& r <= max
    &&& r <= o.items.len()
    &&& f.items == o.items.skip(r as int)
    &&& f.head == o.head
    &&& f.closed == o.closed
    &&& f.config == o.config
}

/// A position `i > 0` on a segment boundary is past the end of segment `(i >> p) - 1`.
proof fn lemma_boundary_segment(i: u64, p: u64)
    requires
        p < 64,
        i > 0,
        i & ((pow2(p as nat) - 1) as u64) == 0,
    ensures
        i >> p >= 1,
{
    vstd::bits::lemma_u64_low_bits_mask_is_mod(i, p as nat);
    vstd::bits::lemma_u64_shr_is_div(i, p);
    vstd::arithmetic::power2::lemma_pow2_pos(p as nat);
    vstd::bits::lemma_u64_pow2_no_overflow(p as nat);
    let d = pow2(p as nat) as int;
    vstd::arithmetic::div_mod::lemma_fundamental_div_mod(i as int, d);
    assert(vstd::bits::low_bits_mask(p as nat) == pow2(p as nat) - 1);
    if i as int / d == 0 {
        assert(d * (i as int / d) == 0) by (nonlinear_arith)
            requires
                i as int / d == 0,
        ;
    }
}

/// What a pool trim to `target` does: nothing (returning 0) unless the pool holds
/// more than `target` segments, the queue is empty and more than `target` segments
/// are allocated; then it frees `r` of them, at most down to `target`.
/// Freeing pooled segments from position `lo` up to `hi`: the directory slot of each
/// position (`lo & mask`) is freed when allocated, until `need` slots are freed or
/// `hi` is reached. The directory after, the position reached, and how many were freed.
pub open spec fn freed_from(segs: Seq<bool>, lo: u64, hi: u64, need: int, mask: u64) -> (Seq<bool>, u64, nat)
    decreases hi - lo,
{
    if lo >= hi || need <= 0 {
        (segs, lo, 0)
    } else {
        let idx = (lo & mask) as int;
        let was = segs[idx];
        let rest = freed_from(
            if was {
                segs.update(idx, false)
            } else {
                segs
            },
            (lo + 1) as u64,
            hi,
            if was {
                need - 1
            } else {
                need
            },
            mask,
        );
        (
            rest.0,
            rest.1,
            if was {
                rest.2 + 1
            } else {
                rest.2
            },
        )
    }
}

/// The queue after its pool is trimmed toward `target` allocated segments, oldest
/// pooled segment first (see `freed_from`), and the number freed.
pub open spec fn pool_trimmed<T>(o: DynSpscState<T>, target: usize) -> (DynSpscState<T>, nat) {
    let f = freed_from(
        o.segments,
        o.sealable_lo,
        o.sealable_hi,
        count_true(o.segments) - target,
        o.config.dir_mask as u64,
    );
    (
        DynSpscState {
            segments: f.0,
            sealable_lo: f.1,
            allocated_segments: (o.allocated_segments - f.2) as u64,
            ..o
        },
        f.2,
    )
}

pub open spec fn deallocated<T>(o: DynSpscState<T>, target: usize, r: u64, f: DynSpscState<T>) -> bool {
    if o.sealable_hi <= o.sealable_lo + target || o.items.len() != 0 || count_true(o.segments) <= target {
        r == 0 && f == o
    } else {
        &&& r <= count_true(o.segments) - target
        &&& r == pool_trimmed(o, target).1
        &&& f == pool_trimmed(o, target).0
    }
}

} // verus!
