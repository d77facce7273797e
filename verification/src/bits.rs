use vstd::prelude::*;

verus! {

/// Whether bit `i` of `x` is set.
pub open spec fn bit_set(x: u64, i: u64) -> bool {
    (x >> i) & 1u64 == 1u64
}

/// Number of set bits of `x`.
pub open spec fn popcount(x: u64) -> nat
    decreases x,
{
    if x == 0 {
        0
    } else {
        (x % 2) as nat + popcount(x / 2)
    }
}

pub proof fn lemma_bit_or(x: u64, y: u64, i: u64)
    requires
        i < 64,
    ensures
        bit_set(x | y, i) == (bit_set(x, i) || bit_set(y, i)),
{
    assert(((x | y) >> i) & 1u64 == 1u64 <==> (((x >> i) & 1u64 == 1u64) || ((y >> i) & 1u64
        == 1u64))) by (bit_vector)
        requires
            i < 64,
    ;
}

pub proof fn lemma_bit_and(x: u64, y: u64, i: u64)
    requires
        i < 64,
    ensures
        bit_set(x & y, i) == (bit_set(x, i) && bit_set(y, i)),
{
    assert(((x & y) >> i) & 1u64 == 1u64 <==> (((x >> i) & 1u64 == 1u64) && ((y >> i) & 1u64
        == 1u64))) by (bit_vector)
        requires
            i < 64,
    ;
}

pub proof fn lemma_bit_not(x: u64, i: u64)
    requires
        i < 64,
    ensures
        bit_set(!x, i) == !bit_set(x, i),
{
    assert(((!x) >> i) & 1u64 == 1u64 <==> !((x >> i) & 1u64 == 1u64)) by (bit_vector)
        requires
            i < 64,
    ;
}

pub proof fn lemma_bit_single(k: u64, i: u64)
    requires
        k < 64,
        i < 64,
    ensures
        bit_set(1u64 << k, i) == (k == i),
{
    assert((((1u64 << k) >> i) & 1u64 == 1u64) <==> (k == i)) by (bit_vector)
        requires
            k < 64,
            i < 64,
    ;
}

/// Bits of the mask of the `len` lowest bits.
pub proof fn lemma_bit_low_mask(len: u64, i: u64)
    requires
        len < 64,
        i < 64,
    ensures
        bit_set(((1u64 << len) - 1) as u64, i) == (i < len),
{
    assert(1u64 << len >= 1) by (bit_vector)
        requires
            len < 64,
    ;
    assert(((((1u64 << len) - 1) as u64 >> i) & 1u64 == 1u64) <==> (i < len)) by (bit_vector)
        requires
            len < 64,
            i < 64,
    ;
}

pub proof fn lemma_bit_max(i: u64)
    requires
        i < 64,
    ensures
        bit_set(u64::MAX, i),
{
    assert((u64::MAX >> i) & 1u64 == 1u64) by (bit_vector)
        requires
            i < 64,
    ;
}

pub proof fn lemma_bit_zero(i: u64)
    requires
        i < 64,
    ensures
        !bit_set(0u64, i),
{
    assert(!((0u64 >> i) & 1u64 == 1u64)) by (bit_vector);
}

/// Two words are equal exactly when they agree on every bit.
pub proof fn lemma_bits_ext(x: u64, y: u64)
    requires
        forall|i: u64| i < 64 ==> bit_set(x, i) == bit_set(y, i),
    ensures
        x == y,
{
    assert(bit_set(x, 0) == bit_set(y, 0));
    let z = x ^ y;
    assert forall|i: u64| i < 64 implies !bit_set(z, i) by {
        assert(bit_set(x, i) == bit_set(y, i));
        assert(((x >> i) & 1u64 == 1u64) == ((y >> i) & 1u64 == 1u64) ==> !(((x ^ y) >> i) & 1u64
            == 1u64)) by (bit_vector)
            requires
                i < 64,
        ;
    }
    lemma_zero_iff_no_bit(z);
    assert(x ^ y == 0u64 ==> x == y) by (bit_vector);
}

/// A word is zero exactly when none of its bits is set.
pub proof fn lemma_zero_iff_no_bit(x: u64)
    ensures
        x == 0 <==> forall|i: u64| i < 64 ==> !bit_set(x, i),
{
    if x == 0 {
        assert forall|i: u64| i < 64 implies !bit_set(x, i) by {
            lemma_bit_zero(i);
        }
    } else {
        let t = lemma_lowest_bit(x);
        assert(bit_set(x, t));
    }
}

/// A nonzero word has a lowest set bit.
pub proof fn lemma_lowest_bit(x: u64) -> (t: u64)
    requires
        x != 0,
    ensures
        t < 64,
        t == vstd::std_specs::bits::u64_trailing_zeros(x),
        bit_set(x, t),
        forall|j: u64| j < t ==> !bit_set(x, j),
{
    vstd::std_specs::bits::axiom_u64_trailing_zeros(x);
    let t = vstd::std_specs::bits::u64_trailing_zeros(x) as u64;
    assert forall|j: u64| j < t implies !bit_set(x, j) by {}
    t
}

/// The lowest set bit of `x` is cleared by `x & (x - 1)`, and no other bit changes.
pub proof fn lemma_clear_lowest(x: u64, t: u64, i: u64)
    requires
        x != 0,
        t < 64,
        bit_set(x, t),
        forall|j: u64| j < t ==> !bit_set(x, j),
        i < 64,
    ensures
        bit_set(x & ((x - 1) as u64), i) == (bit_set(x, i) && i != t),
{
    assert(x & (((1u64 << t) - 1) as u64) == 0u64) by {
        let m = ((1u64 << t) - 1) as u64;
        assert forall|j: u64| j < 64 implies !bit_set(x & m, j) by {
            lemma_bit_and(x, m, j);
            lemma_bit_low_mask(t, j);
        }
        lemma_zero_iff_no_bit(x & m);
    }
    assert(bit_set(x & ((x - 1) as u64), i) == (bit_set(x, i) && i != t)) by (bit_vector)
        requires
            x != 0,
            t < 64,
            (x >> t) & 1u64 == 1u64,
            x & (((1u64 << t) - 1) as u64) == 0u64,
            i < 64,
    ;
}

pub proof fn lemma_popcount_bound(x: u64)
    ensures
        popcount(x) <= 64,
{
    vstd::arithmetic::power2::lemma2_to64();
    lemma_popcount_len(x, 64);
}

proof fn lemma_popcount_len(x: u64, n: nat)
    requires
        (x as int) < vstd::arithmetic::power2::pow2(n),
    ensures
        popcount(x) <= n,
    decreases n,
{
    if x == 0 {
    } else {
        if n == 0 {
            vstd::arithmetic::power2::lemma2_to64();
            assert(false);
        } else {
            vstd::arithmetic::power2::lemma_pow2_unfold(n);
            assert(((x / 2) as int) < vstd::arithmetic::power2::pow2((n - 1) as nat));
            lemma_popcount_len(x / 2, (n - 1) as nat);
        }
    }
}

/// Counts the set bits of a word.
pub fn count_ones(x: u64) -> (r: u32)
    ensures
        r == popcount(x),
{
    let mut y: u64 = x;
    let mut c: u32 = 0;
    proof {
        lemma_popcount_bound(x);
    }
    while y != 0
        invariant
            c + popcount(y) == popcount(x),
            popcount(x) <= 64,
        decreases y,
    {
        assert(y & 1u64 == y % 2) by (bit_vector);
        assert(y >> 1u64 == y / 2) by (bit_vector);
        c = c + (y & 1u64) as u32;
        y = y >> 1u64;
    }
    c
}


/// Distance between bit positions `a` and `b`.
pub open spec fn bit_dist(a: u64, b: u64) -> int {
    if a >= b {
        a - b
    } else {
        b - a
    }
}

/// Whether `r` is the set bit of `value` closest to `index`, the lower one on a tie.
pub open spec fn nearest_bit(value: u64, index: u64, r: u64) -> bool {
    &&& r < 64
    &&& bit_set(value, r)
    &&& forall|b: u64|
        b < 64 && #[trigger] bit_set(value, b) ==> bit_dist(r, index) < bit_dist(b, index) || (bit_dist(
            r,
            index,
        ) == bit_dist(b, index) && r <= b)
}

/// The set bit of `value` closest to position `index` (the lower one on a tie), or
/// 64 when no bit is set.
pub fn find_nearest(value: u64, index: u64) -> (r: u64)
    requires
        index < 64,
    ensures
        value == 0 <==> r == 64,
        value != 0 ==> nearest_bit(value, index, r),
{
    if value == 0 {
        return 64;
    }
    let mut d: u64 = 0;
    while d < 64
        invariant
            index < 64,
            value != 0,
            d <= 64,
            forall|b: u64| b < 64 && bit_dist(b, index) < d ==> !#[trigger] bit_set(value, b),
        decreases 64 - d,
    {
        if index >= d && (value >> (index - d)) & 1 == 1 {
            return index - d;
        }
        if index + d < 64 && (value >> (index + d)) & 1 == 1 {
            return index + d;
        }
        d = d + 1;
    }
    proof {
        lemma_zero_iff_no_bit(value);
        assert forall|b: u64| b < 64 implies !bit_set(value, b) by {
            assert(bit_dist(b, index) < 64);
        }
    }
    64
}
} // verus!
