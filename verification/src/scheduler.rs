use vstd::prelude::*;
use vstd::set_lib::{set_int_range, lemma_int_range};

verus! {

/// How many matches a freshly inserted entry plays in Elo mode.
pub const ELO_INSERT_MATCHES: usize = 15;

/// Relies on rand::random_range over `0..n`: a draw from the thread-local
/// generator, uniform over the half-open range, so the result is below the
/// bound.  The call panics on an empty range, which the precondition rules
/// out.
#[verifier::external_body]
fn random_below(n: usize) -> (r: usize)
    requires
        1 <= n,
    ensures
        r < n,
{
    rand::random_range(0..n)
}

/// The proximity-sampling window radius for a category of `n` entries.
pub open spec fn window_radius(n: int) -> int {
    n / 10 + 1
}

/// An opponent for the entry at rank `a`, drawn from the window of radius
/// `window_radius(n)` around `a`, never `a` itself.  Instead of re-rolling
/// on a self-collision, the draw is taken from the window with `a` left out,
/// which gives the same distribution and cannot loop.
pub fn pick_opponent(a: usize, n: usize) -> (b: usize)
    requires
        2 <= n,
        a < n,
    ensures
        b < n,
        b != a,
        a - window_radius(n as int) <= b <= a + window_radius(n as int),
{
    let radius: usize = n / 10 + 1;
    let lo: usize = if a >= radius {
        a - radius
    } else {
        0
    };
    let hi: usize = if n - 1 - a <= radius {
        n - 1
    } else {
        a + radius
    };
    let draw = random_below(hi - lo);
    let b = lo + draw;
    if b >= a {
        b + 1
    } else {
        b
    }
}

/// A random match among `n` entries: two distinct ranks, the first uniform,
/// the second from the proximity window around the first.
pub fn pick_random_pair(n: usize) -> (pair: (usize, usize))
    requires
        2 <= n,
    ensures
        pair.0 < n,
        pair.1 < n,
        pair.0 != pair.1,
        pair.0 - window_radius(n as int) <= pair.1 <= pair.0 + window_radius(n as int),
{
    let a = random_below(n);
    let b = pick_opponent(a, n);
    (a, b)
}

/// The total number of entries over all categories.
pub open spec fn total_weight(sizes: Seq<usize>) -> int
    decreases sizes.len(),
{
    if sizes.len() == 0 {
        0
    } else {
        sizes[0] + total_weight(sizes.drop_first())
    }
}

/// Which category a draw `u` from `0..total_weight(sizes)` selects: the
/// category whose block of `sizes[i]` consecutive draw values contains `u`.
pub open spec fn weighted_pick_spec(sizes: Seq<usize>, u: int) -> int
    decreases sizes.len(),
{
    if sizes.len() == 0 {
        0
    } else if u < sizes[0] {
        0
    } else {
        1 + weighted_pick_spec(sizes.drop_first(), u - sizes[0])
    }
}

/// The combined size of the first `i` categories: the first draw value that
/// falls to category `i`.
pub open spec fn weight_before(sizes: Seq<usize>, i: int) -> int
    decreases i,
{
    if i <= 0 {
        0
    } else {
        weight_before(sizes, i - 1) + sizes[i - 1]
    }
}

/// A draw `u` selects category `i` exactly when `u` lies in the block of
/// `sizes[i]` values starting at `weight_before(sizes, i)`.
pub proof fn lemma_weighted_pick_block(sizes: Seq<usize>, u: int, i: int)
    requires
        0 <= i < sizes.len(),
        0 <= u < total_weight(sizes),
    ensures
        weighted_pick_spec(sizes, u) == i <==> weight_before(sizes, i) <= u < weight_before(
            sizes,
            i,
        ) + sizes[i],
    decreases sizes.len(),
{
    if u < sizes[0] {
        if i > 0 {
            lemma_weight_before_nonneg_parts(sizes, i);
        }
    } else {
        let rest = sizes.drop_first();
        if i == 0 {
            lemma_weighted_pick_nonneg(rest, u - sizes[0]);
        } else {
            lemma_weighted_pick_block(rest, u - sizes[0], i - 1);
            lemma_weight_before_shift(sizes, i);
        }
    }
}

/// Each prefix weight is the previous one plus that category's size, and all
/// sizes are nonnegative, so prefix weights never decrease.
proof fn lemma_weight_before_nonneg_parts(sizes: Seq<usize>, i: int)
    requires
        0 < i <= sizes.len(),
    ensures
        weight_before(sizes, i) >= sizes[0],
    decreases i,
{
    if i > 1 {
        lemma_weight_before_nonneg_parts(sizes, i - 1);
    } else {
        assert(weight_before(sizes, 0) == 0);
    }
}

proof fn lemma_weighted_pick_nonneg(sizes: Seq<usize>, u: int)
    requires
        0 <= u,
    ensures
        weighted_pick_spec(sizes, u) >= 0,
    decreases sizes.len(),
{
    if sizes.len() > 0 && u >= sizes[0] {
        lemma_weighted_pick_nonneg(sizes.drop_first(), u - sizes[0]);
    }
}

/// Dropping the first category shifts prefix weights down by its size.
proof fn lemma_weight_before_shift(sizes: Seq<usize>, i: int)
    requires
        1 <= i <= sizes.len(),
    ensures
        weight_before(sizes, i) == sizes[0] + weight_before(sizes.drop_first(), i - 1),
    decreases i,
{
    if i > 1 {
        lemma_weight_before_shift(sizes, i - 1);
    } else {
        assert(weight_before(sizes, 0) == 0);
        assert(weight_before(sizes.drop_first(), 0) == 0);
    }
}

/// Appending one more size adds it to the total weight.
pub proof fn lemma_total_weight_push(sizes: Seq<usize>, x: usize)
    ensures
        total_weight(sizes.push(x)) == total_weight(sizes) + x,
    decreases sizes.len(),
{
    if sizes.len() == 0 {
        assert(sizes.push(x).drop_first() =~= Seq::<usize>::empty());
        assert(total_weight(Seq::<usize>::empty()) == 0);
    } else {
        assert(sizes.push(x).drop_first() =~= sizes.drop_first().push(x));
        lemma_total_weight_push(sizes.drop_first(), x);
    }
}

/// The total weight of a prefix is that prefix's `weight_before`.
pub proof fn lemma_total_weight_prefix(sizes: Seq<usize>, k: int)
    requires
        0 <= k <= sizes.len(),
    ensures
        total_weight(sizes.subrange(0, k)) == weight_before(sizes, k),
    decreases k,
{
    if k == 0 {
        assert(sizes.subrange(0, 0) =~= Seq::<usize>::empty());
        assert(total_weight(Seq::<usize>::empty()) == 0);
    } else {
        lemma_total_weight_prefix(sizes, k - 1);
        assert(sizes.subrange(0, k) =~= sizes.subrange(0, k - 1).push(sizes[k - 1]));
        lemma_total_weight_push(sizes.subrange(0, k - 1), sizes[k - 1]);
    }
}

/// The prefix weights exhaust the total.
pub proof fn lemma_weight_before_total(sizes: Seq<usize>)
    ensures
        weight_before(sizes, sizes.len() as int) == total_weight(sizes),
    decreases sizes.len(),
{
    if sizes.len() > 0 {
        lemma_weight_before_total(sizes.drop_first());
        lemma_weight_before_shift(sizes, sizes.len() as int);
    }
}

/// Weighted category sampling is exact, not merely approximate: out of the
/// `total_weight(sizes)` equally likely draw values, exactly `sizes[i]` of
/// them select category `i`.  A uniform draw therefore selects each category
/// with probability `sizes[i] / total`, not `1 / (number of categories)`.
pub proof fn lemma_weighted_selection_share(sizes: Seq<usize>, i: int)
    requires
        0 <= i < sizes.len(),
    ensures
        Set::new(
            |u: int| 0 <= u < total_weight(sizes) && weighted_pick_spec(sizes, u) == i,
        ).len() == sizes[i],
{
    let total = total_weight(sizes);
    let block = set_int_range(weight_before(sizes, i), weight_before(sizes, i) + sizes[i]);
    assert forall|u: int| 0 <= u < total implies (weighted_pick_spec(sizes, u) == i
        <==> weight_before(sizes, i) <= u < weight_before(sizes, i) + sizes[i]) by {
        lemma_weighted_pick_block(sizes, u, i);
    }
    assert(weight_before(sizes, i) >= 0 && weight_before(sizes, i) + sizes[i] <= total) by {
        lemma_weight_before_bounds(sizes, i);
    }
    assert(Set::new(|u: int| 0 <= u < total && weighted_pick_spec(sizes, u) == i) =~= block);
    lemma_int_range(weight_before(sizes, i), weight_before(sizes, i) + sizes[i]);
}

/// Prefix weights lie between zero and the total.
pub proof fn lemma_weight_before_bounds(sizes: Seq<usize>, i: int)
    requires
        0 <= i < sizes.len(),
    ensures
        0 <= weight_before(sizes, i),
        weight_before(sizes, i) + sizes[i] <= total_weight(sizes),
    decreases i,
{
    lemma_weight_before_total(sizes);
    lemma_weight_before_grows(sizes, i + 1, sizes.len() as int);
    lemma_weight_before_grows(sizes, 0, i);
}

/// Prefix weights are monotone in the prefix length.
pub proof fn lemma_weight_before_grows(sizes: Seq<usize>, i: int, j: int)
    requires
        0 <= i <= j <= sizes.len(),
    ensures
        weight_before(sizes, i) <= weight_before(sizes, j),
    decreases j,
{
    if i < j {
        lemma_weight_before_grows(sizes, i, j - 1);
    }
}

/// `weighted_pick_spec` computed on the machine over the sizes of the given
/// slice of categories, for a draw `u` below the total weight.
pub fn weighted_pick(sizes: &Vec<usize>, u: usize) -> (i: usize)
    requires
        (u as int) < total_weight(sizes@),
    ensures
        i < sizes@.len(),
        i as int == weighted_pick_spec(sizes@, u as int),
{
    let n: usize = sizes.len();
    let mut k: usize = 0;
    let mut rest: usize = u;
    proof {
        assert(sizes@.skip(0) =~= sizes@);
    }
    loop
        invariant
            sizes@.len() == n,
            k <= sizes@.len(),
            0 <= rest,
            (rest as int) < total_weight(sizes@.skip(k as int)),
            weighted_pick_spec(sizes@, u as int) == k + weighted_pick_spec(
                sizes@.skip(k as int),
                rest as int,
            ),
        decreases sizes@.len() - k,
    {
        proof {
            assert(sizes@.skip(k as int).len() > 0) by {
                if sizes@.skip(k as int).len() == 0 {
                    assert(total_weight(sizes@.skip(k as int)) == 0);
                }
            }
            assert(sizes@.skip(k as int).len() == sizes@.len() - k);
            assert(k < sizes@.len());
            assert(sizes@.skip(k as int)[0] == sizes@[k as int]);
        }
        if rest < sizes[k] {
            proof {
                lemma_weighted_pick_nonneg(sizes@.skip(k as int), rest as int);
            }
            return k;
        }
        proof {
            assert(sizes@.skip(k as int).drop_first() =~= sizes@.skip(k as int + 1));
        }
        rest = rest - sizes[k];
        k = k + 1;
    }
}

/// A draw below the total weight, selecting a category index in proportion
/// to its size: the returned index is what `weighted_pick_spec` selects for
/// some draw value below the total.
pub fn weighted_random_pick(sizes: &Vec<usize>, total: usize) -> (i: usize)
    requires
        1 <= total,
        total as int == total_weight(sizes@),
    ensures
        i < sizes@.len(),
        exists|u: int|
            0 <= u < total_weight(sizes@) && i as int == weighted_pick_spec(sizes@, u),
{
    let u = random_below(total);
    let i = weighted_pick(sizes, u);
    proof {
        assert(i as int == weighted_pick_spec(sizes@, u as int));
        assert((u as int) < total_weight(sizes@));
    }
    i
}

} // verus!
