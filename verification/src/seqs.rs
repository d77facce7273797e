use vstd::prelude::*;

verus! {

/// Number of `Some` elements of `s`.
pub open spec fn count_some<A>(s: Seq<Option<A>>) -> nat
    decreases s.len(),
{
    if s.len() == 0 {
        0
    } else {
        count_some(s.drop_last()) + if s.last() is Some {
            1nat
        } else {
            0nat
        }
    }
}

pub open spec fn some_ind<A>(x: Option<A>) -> int {
    if x is Some {
        1
    } else {
        0
    }
}

pub proof fn lemma_count_some_bound<A>(s: Seq<Option<A>>)
    ensures
        count_some(s) <= s.len(),
    decreases s.len(),
{
    if s.len() > 0 {
        lemma_count_some_bound(s.drop_last());
    }
}

pub proof fn lemma_count_some_push<A>(s: Seq<Option<A>>, x: Option<A>)
    ensures
        count_some(s.push(x)) == count_some(s) + some_ind(x),
{
    assert(s.push(x).drop_last() =~= s);
}

pub proof fn lemma_count_some_update<A>(s: Seq<Option<A>>, i: int, x: Option<A>)
    requires
        0 <= i < s.len(),
    ensures
        count_some(s.update(i, x)) == count_some(s) - some_ind(s[i]) + some_ind(x),
    decreases s.len(),
{
    if i == s.len() - 1 {
        assert(s.update(i, x).drop_last() =~= s.drop_last());
    } else {
        lemma_count_some_update(s.drop_last(), i, x);
        assert(s.update(i, x).drop_last() =~= s.drop_last().update(i, x));
    }
}

/// A sequence with a `Some` element counts at least one.
pub proof fn lemma_count_some_pos<A>(s: Seq<Option<A>>, i: int)
    requires
        0 <= i < s.len(),
        s[i] is Some,
    ensures
        count_some(s) >= 1,
{
    lemma_count_some_update(s, i, None);
}

/// A sequence of `None` counts nothing.
pub proof fn lemma_count_some_none<A>(n: nat)
    ensures
        count_some(Seq::new(n, |k: int| None::<A>)) == 0,
    decreases n,
{
    if n > 0 {
        lemma_count_some_none::<A>((n - 1) as nat);
        assert(Seq::new(n, |k: int| None::<A>).drop_last() =~= Seq::new((n - 1) as nat, |k: int| None::<A>));
    }
}

/// Sum of a sequence of naturals.
pub open spec fn sum_nat(s: Seq<nat>) -> nat
    decreases s.len(),
{
    if s.len() == 0 {
        0
    } else {
        sum_nat(s.drop_last()) + s.last()
    }
}

/// The sum of the first `i + 1` terms adds term `i` to the sum of the first `i`.
pub proof fn lemma_sum_nat_take(s: Seq<nat>, i: int)
    requires
        0 <= i < s.len(),
    ensures
        sum_nat(s.take(i + 1)) == sum_nat(s.take(i)) + s[i],
{
    assert(s.take(i + 1).drop_last() =~= s.take(i));
}

/// A prefix sums to no more than the whole.
pub proof fn lemma_sum_nat_prefix_le(s: Seq<nat>, i: int)
    requires
        0 <= i <= s.len(),
    ensures
        sum_nat(s.take(i)) <= sum_nat(s),
    decreases s.len() - i,
{
    if i < s.len() {
        lemma_sum_nat_take(s, i);
        lemma_sum_nat_prefix_le(s, i + 1);
    } else {
        assert(s.take(i) =~= s);
    }
}

pub proof fn lemma_sum_nat_update(s: Seq<nat>, i: int, x: nat)
    requires
        0 <= i < s.len(),
    ensures
        sum_nat(s.update(i, x)) == sum_nat(s) - s[i] + x,
    decreases s.len(),
{
    if i == s.len() - 1 {
        assert(s.update(i, x).drop_last() =~= s.drop_last());
    } else {
        lemma_sum_nat_update(s.drop_last(), i, x);
        assert(s.update(i, x).drop_last() =~= s.drop_last().update(i, x));
    }
}

pub proof fn lemma_sum_nat_ge(s: Seq<nat>, i: int)
    requires
        0 <= i < s.len(),
    ensures
        sum_nat(s) >= s[i],
    decreases s.len(),
{
    if i < s.len() - 1 {
        lemma_sum_nat_ge(s.drop_last(), i);
    }
}

pub proof fn lemma_sum_nat_zero(n: nat)
    ensures
        sum_nat(Seq::new(n, |k: int| 0nat)) == 0,
    decreases n,
{
    if n > 0 {
        lemma_sum_nat_zero((n - 1) as nat);
        assert(Seq::new(n, |k: int| 0nat).drop_last() =~= Seq::new((n - 1) as nat, |k: int| 0nat));
    }
}


/// Number of `true` elements of `s`.
pub open spec fn count_true(s: Seq<bool>) -> nat
    decreases s.len(),
{
    if s.len() == 0 {
        0
    } else {
        count_true(s.drop_last()) + if s.last() {
            1nat
        } else {
            0nat
        }
    }
}

pub proof fn lemma_count_true_bound(s: Seq<bool>)
    ensures
        count_true(s) <= s.len(),
    decreases s.len(),
{
    if s.len() > 0 {
        lemma_count_true_bound(s.drop_last());
    }
}

pub proof fn lemma_count_true_update(s: Seq<bool>, i: int, x: bool)
    requires
        0 <= i < s.len(),
    ensures
        count_true(s.update(i, x)) == count_true(s) - (if s[i] {
            1int
        } else {
            0int
        }) + (if x {
            1int
        } else {
            0int
        }),
    decreases s.len(),
{
    if i == s.len() - 1 {
        assert(s.update(i, x).drop_last() =~= s.drop_last());
    } else {
        lemma_count_true_update(s.drop_last(), i, x);
        assert(s.update(i, x).drop_last() =~= s.drop_last().update(i, x));
    }
}

/// A sequence of `false` counts nothing.
pub proof fn lemma_count_true_none(n: nat)
    ensures
        count_true(Seq::new(n, |k: int| false)) == 0,
    decreases n,
{
    if n > 0 {
        lemma_count_true_none((n - 1) as nat);
        assert(Seq::new(n, |k: int| false).drop_last() =~= Seq::new((n - 1) as nat, |k: int| false));
    }
}

} // verus!
