use vstd::prelude::*;

verus! {

// Balanced partitioning of `leaf_count` leaves over `worker_count` workers: the first
// `leaf_count % worker_count` workers own `leaf_count / worker_count + 1` consecutive
// leaves each, the remaining workers `leaf_count / worker_count` each.

pub open spec fn part_base(lc: int, wc: int) -> int {
    lc / wc
}

pub open spec fn part_extra(lc: int, wc: int) -> int {
    lc % wc
}

/// First leaf of worker `w`'s partition.
pub open spec fn part_start(lc: int, w: int, wc: int) -> int {
    if wc == 0 {
        0
    } else if w < part_extra(lc, wc) {
        w * (part_base(lc, wc) + 1)
    } else {
        part_extra(lc, wc) * (part_base(lc, wc) + 1) + (w - part_extra(lc, wc)) * part_base(lc, wc)
    }
}

/// Number of leaves that worker `w` is assigned before clamping to `lc`.
pub open spec fn part_len(lc: int, w: int, wc: int) -> int {
    if w < part_extra(lc, wc) {
        part_base(lc, wc) + 1
    } else {
        part_base(lc, wc)
    }
}

/// One past the last leaf of worker `w`'s partition.
pub open spec fn part_end(lc: int, w: int, wc: int) -> int {
    if wc == 0 {
        0
    } else {
        let e = part_start(lc, w, wc) + part_len(lc, w, wc);
        if e < lc {
            e
        } else {
            lc
        }
    }
}

/// The worker whose partition holds `leaf`.
pub open spec fn part_owner(lc: int, leaf: int, wc: int) -> int {
    if wc == 0 {
        0
    } else {
        let base = part_base(lc, wc);
        let extra = part_extra(lc, wc);
        let boundary = extra * (base + 1);
        if leaf < boundary {
            leaf / (base + 1)
        } else {
            extra + (leaf - boundary) / base
        }
    }
}

pub proof fn lemma_split(lc: int, wc: int)
    requires
        lc >= 0,
        wc > 0,
    ensures
        lc == wc * part_base(lc, wc) + part_extra(lc, wc),
        0 <= part_extra(lc, wc) < wc,
        part_base(lc, wc) >= 0,
        part_extra(lc, wc) * (part_base(lc, wc) + 1) <= lc,
{
    let b = part_base(lc, wc);
    let e = part_extra(lc, wc);
    vstd::arithmetic::div_mod::lemma_fundamental_div_mod(lc, wc);
    assert(0 <= e < wc);
    assert(b >= 0) by {
        vstd::arithmetic::div_mod::lemma_div_pos_is_pos(lc, wc);
    }
    assert(e * (b + 1) <= lc) by (nonlinear_arith)
        requires
            lc == wc * b + e,
            0 <= e < wc,
            b >= 0,
    ;
}

/// Reduction of `x` modulo `n` for `0 <= x < 2n`.
pub proof fn lemma_mod_wrap(x: int, n: int)
    requires
        n > 0,
        0 <= x < 2 * n,
    ensures
        x % n == if x < n {
            x
        } else {
            x - n
        },
{
    vstd::arithmetic::div_mod::lemma_fundamental_div_mod(x, n);
    let q = x / n;
    let r = x % n;
    assert(q == if x < n {
        0int
    } else {
        1int
    }) by (nonlinear_arith)
        requires
            x == n * q + r,
            0 <= r < n,
            0 <= x < 2 * n,
    ;
}

/// Consecutive partitions abut: worker `w + 1` starts where worker `w`'s unclamped
/// range ends.
pub proof fn lemma_start_step(lc: int, w: int, wc: int)
    requires
        lc >= 0,
        wc > 0,
        0 <= w,
    ensures
        part_start(lc, w + 1, wc) == part_start(lc, w, wc) + part_len(lc, w, wc),
{
    lemma_split(lc, wc);
    let b = part_base(lc, wc);
    let e = part_extra(lc, wc);
    if w + 1 < e {
        assert((w + 1) * (b + 1) == w * (b + 1) + (b + 1)) by (nonlinear_arith);
    } else if w + 1 == e {
        assert((w + 1) * (b + 1) == w * (b + 1) + (b + 1)) by (nonlinear_arith);
        assert((w + 1 - e) * b == 0) by (nonlinear_arith)
            requires
                w + 1 == e,
        ;
    } else {
        assert((w + 1 - e) * b == (w - e) * b + b) by (nonlinear_arith);
    }
}

/// The unclamped start of worker `w` for `0 <= w <= wc` lies in `[0, lc]`, with the start of
/// worker `wc` being exactly `lc`.
pub proof fn lemma_start_bounds(lc: int, w: int, wc: int)
    requires
        lc >= 0,
        wc > 0,
        0 <= w <= wc,
    ensures
        0 <= part_start(lc, w, wc) <= lc,
        w == wc ==> part_start(lc, w, wc) == lc,
        w < wc ==> part_start(lc, w, wc) + part_len(lc, w, wc) <= lc,
    decreases wc - w,
{
    lemma_split(lc, wc);
    let b = part_base(lc, wc);
    let e = part_extra(lc, wc);
    if w == wc {
        assert(e * (b + 1) + (wc - e) * b == wc * b + e) by (nonlinear_arith);
    } else {
        lemma_start_bounds(lc, w + 1, wc);
        lemma_start_step(lc, w, wc);
        if w < e {
            assert(w * (b + 1) >= 0) by (nonlinear_arith)
                requires
                    w >= 0,
                    b >= 0,
            ;
        } else {
            assert((w - e) * b >= 0) by (nonlinear_arith)
                requires
                    w >= e,
                    b >= 0,
            ;
            assert(e * (b + 1) >= 0) by (nonlinear_arith)
                requires
                    e >= 0,
                    b >= 0,
            ;
        }
    }
}

/// Every leaf lies in the partition of its owner, and the owner is a valid worker.
pub proof fn lemma_owner_in_partition(lc: int, leaf: int, wc: int)
    requires
        wc > 0,
        0 <= leaf < lc,
    ensures
        0 <= part_owner(lc, leaf, wc) < wc,
        leaf < part_extra(lc, wc) * (part_base(lc, wc) + 1) || part_base(lc, wc) > 0,
        part_start(lc, part_owner(lc, leaf, wc), wc) <= leaf < part_end(
            lc,
            part_owner(lc, leaf, wc),
            wc,
        ),
{
    lemma_split(lc, wc);
    let b = part_base(lc, wc);
    let e = part_extra(lc, wc);
    let boundary = e * (b + 1);
    let w = part_owner(lc, leaf, wc);
    if leaf < boundary {
        assert(w == leaf / (b + 1));
        vstd::arithmetic::div_mod::lemma_fundamental_div_mod(leaf, b + 1);
        let r = leaf % (b + 1);
        assert(0 <= w < e) by (nonlinear_arith)
            requires
                leaf == (b + 1) * w + r,
                0 <= r < b + 1,
                0 <= leaf < e * (b + 1),
                b >= 0,
        ;
        assert(w * (b + 1) <= leaf < w * (b + 1) + (b + 1)) by (nonlinear_arith)
            requires
                leaf == (b + 1) * w + r,
                0 <= r < b + 1,
        ;
        lemma_start_bounds(lc, w, wc);
    } else {
        if b == 0 {
            assert(boundary == e) by (nonlinear_arith)
                requires
                    boundary == e * (b + 1),
                    b == 0,
            ;
            assert(lc == e) by (nonlinear_arith)
                requires
                    lc == wc * b + e,
                    b == 0,
            ;
            assert(false);
        }
        let q = (leaf - boundary) / b;
        vstd::arithmetic::div_mod::lemma_fundamental_div_mod(leaf - boundary, b);
        let r = (leaf - boundary) % b;
        assert(0 <= q < wc - e) by (nonlinear_arith)
            requires
                leaf - boundary == b * q + r,
                0 <= r < b,
                0 <= leaf - boundary,
                leaf < lc,
                lc == wc * b + e,
                boundary == e * (b + 1),
                b > 0,
                e < wc,
        ;
        assert(q * b <= leaf - boundary < q * b + b) by (nonlinear_arith)
            requires
                leaf - boundary == b * q + r,
                0 <= r < b,
        ;
        assert(w == e + q);
        lemma_start_bounds(lc, w, wc);
    }
}

/// Leaves per worker when `total` leaves are split among `wc` workers in equal
/// blocks: `total / wc` rounded up.
pub open spec fn block_len(total: int, wc: int) -> int {
    (total + wc - 1) / wc
}

/// The leaves `[start, end)` given to worker `worker_id` when `total_leaves` leaves
/// are split among `worker_count` workers in blocks of `block_len` (the last
/// blocks may be short or empty: `start` may then pass `end`).
pub fn worker_partition(worker_id: usize, worker_count: usize, total_leaves: usize) -> (r: (usize, usize))
    requires
        0 < worker_count,
        worker_id < worker_count,
        total_leaves + worker_count <= usize::MAX,
    ensures
        r.0 == worker_id * block_len(total_leaves as int, worker_count as int),
        r.1 == if (worker_id + 1) * block_len(total_leaves as int, worker_count as int) < total_leaves {
            (worker_id + 1) * block_len(total_leaves as int, worker_count as int)
        } else {
            total_leaves as int
        },
{
    let leaves_per_worker = (total_leaves + worker_count - 1) / worker_count;
    proof {
        lemma_block_fits(total_leaves as int, worker_count as int, worker_id as int);
    }
    let partition_start = worker_id * leaves_per_worker;
    let next = (worker_id + 1) * leaves_per_worker;
    let partition_end = if next < total_leaves {
        next
    } else {
        total_leaves
    };
    (partition_start, partition_end)
}

proof fn lemma_block_fits(total: int, wc: int, w: int)
    by (nonlinear_arith)
    requires
        0 < wc,
        0 <= w < wc,
        0 <= total,
    ensures
        0 <= w * block_len(total, wc) <= (w + 1) * block_len(total, wc),
        (w + 1) * block_len(total, wc) <= total + wc - 1,
        total <= wc * block_len(total, wc),
{
    let b = block_len(total, wc);
    assert(wc * b <= total + wc - 1);
    assert(total + wc - 1 < wc * b + wc);
    assert((w + 1) * b <= wc * b);
}

/// Every leaf goes to exactly one worker under the block split: the worker whose
/// `[start, end)` holds it is the leaf's index over the block length.
pub proof fn lemma_block_owner(total: int, wc: int, leaf: int)
    requires
        0 < wc,
        0 <= leaf < total,
    ensures
        ({
            let b = block_len(total, wc);
            let w = leaf / b;
            &&& b > 0
            &&& 0 <= w < wc
            &&& w * b <= leaf < (w + 1) * b
            &&& forall|v: int| 0 <= v < wc && v != w ==> !(#[trigger] (v * b) <= leaf && leaf < (v + 1) * b)
        }),
{
    let b = block_len(total, wc);
    assert(b > 0) by (nonlinear_arith)
        requires
            0 < wc,
            0 < total,
            b == (total + wc - 1) / wc,
    ;
    lemma_block_fits(total, wc, 0);
    let w = leaf / b;
    assert(w * b <= leaf < (w + 1) * b) by (nonlinear_arith)
        requires
            b > 0,
            leaf >= 0,
            w == leaf / b,
    ;
    assert(w < wc) by (nonlinear_arith)
        requires
            b > 0,
            w * b <= leaf,
            leaf < total,
            total <= wc * b,
    ;
    assert forall|v: int| 0 <= v < wc && v != w implies !(#[trigger] (v * b) <= leaf && leaf < (v + 1) * b) by {
        if v < w {
            assert((v + 1) * b <= w * b) by (nonlinear_arith)
                requires
                    v < w,
                    b > 0,
            ;
        } else {
            assert((w + 1) * b <= v * b) by (nonlinear_arith)
                requires
                    w < v,
                    b > 0,
            ;
        }
    }
}

} // verus!
