use vstd::prelude::*;
use vstd::arithmetic::div_mod::{lemma_div_is_ordered, lemma_hoist_over_denominator};

verus! {

/// The ceiling of the base-two logarithm: the number of halvings (rounding
/// up) that take `n` down to one.  `clog2(n) == 0` for `n <= 1`.
pub open spec fn clog2(n: int) -> int
    decreases n,
{
    if n <= 1 {
        0
    } else {
        1 + clog2((n + 1) / 2)
    }
}

pub proof fn lemma_clog2_nonneg(n: int)
    ensures
        clog2(n) >= 0,
    decreases n,
{
    if n > 1 {
        lemma_clog2_nonneg((n + 1) / 2);
    }
}

pub proof fn lemma_clog2_monotone(a: int, b: int)
    requires
        a <= b,
    ensures
        clog2(a) <= clog2(b),
    decreases b,
{
    if a <= 1 {
        lemma_clog2_nonneg(b);
    } else {
        lemma_div_is_ordered(a + 1, b + 1, 2);
        lemma_clog2_monotone((a + 1) / 2, (b + 1) / 2);
    }
}

/// `clog2(n) <= k` whenever `n <= 2^k`; used to bound the iteration count of
/// the executable computation by the word size.
pub proof fn lemma_clog2_le(n: int, k: int)
    requires
        0 <= k,
        n <= vstd::arithmetic::power2::pow2(k as nat),
    ensures
        clog2(n) <= k,
    decreases k,
{
    vstd::arithmetic::power2::lemma_pow2_pos(k as nat);
    if n <= 1 {
    } else {
        assert(k >= 1) by {
            if k == 0 {
                vstd::arithmetic::power2::lemma2_to64();
            }
        }
        assert(vstd::arithmetic::power2::pow2(k as nat) == 2 * vstd::arithmetic::power2::pow2(
            (k - 1) as nat,
        )) by {
            vstd::arithmetic::power2::lemma_pow2_unfold(k as nat);
        }
        let h = vstd::arithmetic::power2::pow2((k - 1) as nat) as int;
        lemma_div_is_ordered(n + 1, 2 * h + 1, 2);
        assert((2 * h + 1) / 2 == h) by {
            lemma_hoist_over_denominator(1, h, 2);
        }
        lemma_clog2_le((n + 1) / 2, k - 1);
    }
}

/// How many positions are still open for the candidate of a binary
/// insertion whose bounds are `lower..=upper`.
pub open spec fn insert_options(lower: int, upper: int) -> int {
    upper - lower + 1
}

/// The number of oracle calls a binary insertion with bounds
/// `lower..=upper` can still need.
pub open spec fn insert_steps_left(lower: int, upper: int) -> int {
    clog2(insert_options(lower, upper))
}

/// Each judged comparison of a binary insertion strictly shrinks the number
/// of oracle calls that can still be needed, whichever way the judgment
/// goes.  Starting from bounds `0..=n` this measure is `clog2(n + 1)`, so an
/// insertion into a sorted `n`-entry category asks the oracle at most
/// `clog2(n + 1)` questions.
pub proof fn lemma_insert_step_decreases(lower: int, upper: int)
    requires
        0 <= lower < upper,
    ensures
        insert_steps_left(lower, (lower + upper) / 2) < insert_steps_left(lower, upper),
        insert_steps_left((lower + upper) / 2 + 1, upper) < insert_steps_left(lower, upper),
{
    let w = upper - lower;
    let mid = (lower + upper) / 2;
    assert(mid == lower + w / 2) by {
        lemma_hoist_over_denominator(w, lower, 2);
    }
    let m = w + 1;
    assert((m + 1) / 2 == w / 2 + 1) by {
        lemma_hoist_over_denominator(w, 1, 2);
    }
    assert(clog2(m) == 1 + clog2(w / 2 + 1));
    // Candidate won: the open positions become lower..=mid.
    assert(insert_options(lower, mid) == w / 2 + 1);
    assert(insert_steps_left(lower, mid) == clog2(m) - 1);
    // Candidate lost: the open positions become mid+1..=upper.
    assert(insert_options(mid + 1, upper) == w - w / 2);
    assert(w - w / 2 <= w / 2 + 1) by (nonlinear_arith);
    lemma_clog2_monotone(w - w / 2, w / 2 + 1);
    lemma_clog2_nonneg(w - w / 2);
    assert(insert_steps_left(mid + 1, upper) <= clog2(m) - 1);
}

/// A binary insertion into a category of `n` entries starts with bounds
/// `0..=n`, so by `lemma_insert_step_decreases` it asks the oracle at most
/// `clog2(n + 1)` questions before the bounds close.
pub proof fn lemma_insert_starts_at_log(n: int)
    requires
        0 <= n,
    ensures
        insert_steps_left(0, n) == clog2(n + 1),
{
}

/// `clog2` computed on the machine.
pub fn ceil_log2(n: usize) -> (r: usize)
    ensures
        r as int == clog2(n as int),
        r <= 64,
{
    proof {
        vstd::arithmetic::power2::lemma2_to64();
        vstd::arithmetic::power2::lemma2_to64_rest();
        lemma_clog2_le(n as int, 64);
        lemma_clog2_nonneg(n as int);
    }
    let mut m: usize = n;
    let mut r: usize = 0;
    while m > 1
        invariant
            r + clog2(m as int) == clog2(n as int),
            clog2(n as int) <= 64,
            m >= 1 || r == clog2(n as int),
        decreases m,
    {
        proof {
            lemma_clog2_nonneg((m as int + 1) / 2);
            assert((m as int + 1) / 2 == m as int / 2 + (m as int % 2)) by {
                if m as int % 2 == 0 {
                    lemma_hoist_over_denominator(0, m as int / 2, 2);
                    assert(m as int == 2 * (m as int / 2)) by {
                        vstd::arithmetic::div_mod::lemma_fundamental_div_mod(m as int, 2);
                    }
                } else {
                    vstd::arithmetic::div_mod::lemma_fundamental_div_mod(m as int, 2);
                    lemma_hoist_over_denominator(1, m as int / 2, 2);
                }
            }
        }
        m = m / 2 + m % 2;
        r = r + 1;
    }
    r
}

} // verus!
