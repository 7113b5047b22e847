use vstd::prelude::*;
use vstd::arithmetic::mul::lemma_mul_inequality;
use vstd::arithmetic::div_mod::{lemma_div_is_ordered, lemma_div_is_ordered_by_denominator};
use crate::store::RATING_LIMIT;

verus! {

/// The recommended per-deployment sensitivity constant.
pub const DEFAULT_K_FACTOR: i64 = 32;

/// The bounds of the compressed display scale used by the clamped variant.
pub const CLAMP_MIN: i64 = 50;

pub const CLAMP_MAX: i64 = 749;

/// `v` forced into `[lo, hi]`.
pub open spec fn clamp_spec(v: int, lo: int, hi: int) -> int {
    if v < lo {
        lo
    } else if v > hi {
        hi
    } else {
        v
    }
}

/// `10^(d/400)` in millionths, for `0 <= d <= 2047`, computed by binary
/// decomposition of `d`: one precomputed factor `round(10^(2^k/400) * 10^6)`
/// per bit, combined by truncating fixed-point multiplication.  This is
/// the engine's own, integer-only definition of the Elo curve.
#[verifier::opaque]
pub open spec fn pow10_frac(d: int) -> int {
    let r: int = 1000000;
    let r = if (d / 1) % 2 == 1 { r * 1005773 / 1000000 } else { r };
    let r = if (d / 2) % 2 == 1 { r * 1011579 / 1000000 } else { r };
    let r = if (d / 4) % 2 == 1 { r * 1023293 / 1000000 } else { r };
    let r = if (d / 8) % 2 == 1 { r * 1047129 / 1000000 } else { r };
    let r = if (d / 16) % 2 == 1 { r * 1096478 / 1000000 } else { r };
    let r = if (d / 32) % 2 == 1 { r * 1202264 / 1000000 } else { r };
    let r = if (d / 64) % 2 == 1 { r * 1445440 / 1000000 } else { r };
    let r = if (d / 128) % 2 == 1 { r * 2089296 / 1000000 } else { r };
    let r = if (d / 256) % 2 == 1 { r * 4365158 / 1000000 } else { r };
    let r = if (d / 512) % 2 == 1 { r * 19054607 / 1000000 } else { r };
    let r = if (d / 1024) % 2 == 1 { r * 363078055 / 1000000 } else { r };
    r
}

/// The expected score, in millionths, of a player whose opponent is rated
/// `d` points higher: `1 / (1 + 10^(d/400))`.  The difference saturates at
/// 2000 points, where the expected score is already below one hundredth of
/// a percent.
pub open spec fn expected_millionths(d: int) -> int {
    let dd = clamp_spec(d, -2000, 2000);
    if dd >= 0 {
        1000000000000int / (1000000 + pow10_frac(dd))
    } else {
        1000000 - 1000000000000int / (1000000 + pow10_frac(-dd))
    }
}

/// The rating points the winner gains (and the loser loses): `k` times one
/// minus the winner's expected score, rounded to the nearest integer.
pub open spec fn elo_gain(k: int, e_winner: int) -> int {
    (k * (1000000 - e_winner) + 500000) / 1000000
}

/// An updated rating forced back onto the legal scale: the display scale
/// `[CLAMP_MIN, CLAMP_MAX]` for the clamped variant, the full rating scale
/// otherwise.
pub open spec fn finish_rating(v: int, clamped: bool) -> int {
    if clamped {
        clamp_spec(v, CLAMP_MIN as int, CLAMP_MAX as int)
    } else {
        clamp_spec(v, -RATING_LIMIT as int, RATING_LIMIT as int)
    }
}

/// The winner's new rating after a judged match.
pub open spec fn elo_winner_new(k: int, clamped: bool, r_winner: int, r_loser: int) -> int {
    finish_rating(r_winner + elo_gain(k, expected_millionths(r_loser - r_winner)), clamped)
}

/// The loser's new rating after a judged match.  The loser gives up exactly
/// what the winner gains, before clamping.
pub open spec fn elo_loser_new(k: int, clamped: bool, r_winner: int, r_loser: int) -> int {
    finish_rating(r_loser - elo_gain(k, expected_millionths(r_loser - r_winner)), clamped)
}

/// One truncating fixed-point multiplication step, with bounds that rule out
/// overflow: `r * c / 10^6` under the caller-supplied bounds `r <= rb`,
/// `c <= cb`.
fn mul_frac(r: u64, c: u64, rb: u64, cb: u64) -> (out: u64)
    requires
        r <= rb,
        c <= cb,
        rb as int * cb as int <= u64::MAX as int,
    ensures
        out as int == r as int * c as int / 1000000,
        out as int <= rb as int * cb as int / 1000000,
{
    proof {
        lemma_mul_inequality(r as int, rb as int, c as int);
        lemma_mul_inequality(c as int, cb as int, rb as int);
        lemma_div_is_ordered(r as int * c as int, rb as int * cb as int, 1000000);
    }
    r * c / 1000000
}

/// `pow10_frac` computed on the machine.
#[verifier::rlimit(100)]
fn pow10_frac_exec(d: u64) -> (r: u64)
    requires
        d <= 2047,
    ensures
        r as int == pow10_frac(d as int),
        r <= 131068489988,
{
    proof {
        reveal(pow10_frac);
    }
    let mut r: u64 = 1000000;
    if (d / 1) % 2 == 1 {
        r = mul_frac(r, 1005773, 1000000, 1005773);
    }
    assert(r <= 1005773);
    if (d / 2) % 2 == 1 {
        r = mul_frac(r, 1011579, 1005773, 1011579);
    }
    assert(r <= 1017418);
    if (d / 4) % 2 == 1 {
        r = mul_frac(r, 1023293, 1017418, 1023293);
    }
    assert(r <= 1041116);
    if (d / 8) % 2 == 1 {
        r = mul_frac(r, 1047129, 1041116, 1047129);
    }
    assert(r <= 1090182);
    if (d / 16) % 2 == 1 {
        r = mul_frac(r, 1096478, 1090182, 1096478);
    }
    assert(r <= 1195360);
    if (d / 32) % 2 == 1 {
        r = mul_frac(r, 1202264, 1195360, 1202264);
    }
    assert(r <= 1437138);
    if (d / 64) % 2 == 1 {
        r = mul_frac(r, 1445440, 1437138, 1445440);
    }
    assert(r <= 2077296);
    if (d / 128) % 2 == 1 {
        r = mul_frac(r, 2089296, 2077296, 2089296);
    }
    assert(r <= 4340086);
    if (d / 256) % 2 == 1 {
        r = mul_frac(r, 4365158, 4340086, 4365158);
    }
    assert(r <= 18945161);
    if (d / 512) % 2 == 1 {
        r = mul_frac(r, 19054607, 18945161, 19054607);
    }
    assert(r <= 360992597);
    if (d / 1024) % 2 == 1 {
        r = mul_frac(r, 363078055, 360992597, 363078055);
    }
    assert(r <= 131068489988);
    r
}

/// `expected_millionths` computed on the machine.
pub fn expected_millionths_exec(d: i64) -> (e: u64)
    requires
        -2 * RATING_LIMIT <= d <= 2 * RATING_LIMIT,
    ensures
        e as int == expected_millionths(d as int),
        e <= 1000000,
{
    let dc: i64 = if d > 2000 {
        2000
    } else if d < -2000 {
        -2000
    } else {
        d
    };
    if dc >= 0 {
        let x = pow10_frac_exec(dc as u64);
        proof {
            lemma_div_is_ordered_by_denominator(1000000000000, 1000000, 1000000 + x as int);
        }
        1000000000000u64 / (1000000 + x)
    } else {
        let x = pow10_frac_exec((-dc) as u64);
        proof {
            lemma_div_is_ordered_by_denominator(1000000000000, 1000000, 1000000 + x as int);
        }
        1000000 - 1000000000000u64 / (1000000 + x)
    }
}

/// `clamp_spec` computed on the machine.
pub fn clamp_i64(v: i64, lo: i64, hi: i64) -> (r: i64)
    requires
        lo <= hi,
    ensures
        r as int == clamp_spec(v as int, lo as int, hi as int),
        lo <= r <= hi,
{
    if v < lo {
        lo
    } else if v > hi {
        hi
    } else {
        v
    }
}

/// The continuous-rating update rule: both new ratings after a judged match,
/// winner first.  The winner's expected score comes from the rating gap, the
/// winner gains `k * (1 - expected)` rounded to the nearest point, the loser
/// loses the same amount, and both results are forced back onto the legal
/// scale.
pub fn elo_update(k: i64, clamped: bool, r_winner: i64, r_loser: i64) -> (updated: (i64, i64))
    requires
        1 <= k <= 1024,
        -RATING_LIMIT <= r_winner <= RATING_LIMIT,
        -RATING_LIMIT <= r_loser <= RATING_LIMIT,
    ensures
        updated.0 as int == elo_winner_new(k as int, clamped, r_winner as int, r_loser as int),
        updated.1 as int == elo_loser_new(k as int, clamped, r_winner as int, r_loser as int),
        -RATING_LIMIT <= updated.0 <= RATING_LIMIT,
        -RATING_LIMIT <= updated.1 <= RATING_LIMIT,
{
    let e = expected_millionths_exec(r_loser - r_winner);
    let diff = 1000000 - e;
    proof {
        lemma_mul_inequality(k as int, 1024, diff as int);
        lemma_mul_inequality(diff as int, 1000000, 1024);
        lemma_div_is_ordered(k as int * diff as int + 500000, 1024500000, 1000000);
    }
    let gain = ((k as u64 * diff + 500000) / 1000000) as i64;
    assert(0 <= gain <= 1024);
    let new_winner = clamp_i64(
        r_winner + gain,
        if clamped { CLAMP_MIN } else { -RATING_LIMIT },
        if clamped { CLAMP_MAX } else { RATING_LIMIT },
    );
    let new_loser = clamp_i64(
        r_loser - gain,
        if clamped { CLAMP_MIN } else { -RATING_LIMIT },
        if clamped { CLAMP_MAX } else { RATING_LIMIT },
    );
    (new_winner, new_loser)
}

} // verus!
