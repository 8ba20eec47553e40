//! Drawing three distinct ray indices from a pool.
//!
//! A pick that repeats an earlier one is rejected and drawn again. Since a
//! generator may repeat itself for any number of draws, the number of
//! rejections is capped; past the cap the pick is drawn from the indices that
//! are still free, each of them equally likely, so that the sampler always
//! returns.

use rand::rngs::StdRng;
use rand::Rng;
use vstd::prelude::*;

verus! {

/// `rand::rngs::StdRng`, the generator that the caller seeds and hands in.
/// It is only passed through to `gen_range`; nothing is claimed of its state.
#[verifier::external_type_specification]
#[verifier::external_body]
pub struct ExStdRng(rand::rngs::StdRng);

/// How many draws for one pick are rejected because they collide with an
/// earlier pick, before the sampler switches to a draw that cannot collide.
pub const REDRAW_LIMIT: usize = 64;

/// Calls `rand::Rng::gen_range` with the half-open range `0..bound`.
///
/// The range must not be empty, since `gen_range` panics on an empty range.
/// All that is claimed of the value is that it lies in the range; which value
/// comes back depends on the state of the generator.
#[verifier::external_body]
fn draw_below(rng: &mut StdRng, bound: usize) -> (d: usize)
    requires
        bound > 0,
    ensures
        d < bound,
{
    rng.gen_range(0..bound)
}

/// The `d`-th index, counting from zero, among those different from `taken`.
pub open spec fn skip_one_spec(d: int, taken: int) -> int {
    if d >= taken {
        d + 1
    } else {
        d
    }
}

/// The `d`-th index, counting from zero, among those different from `low`
/// and `high`, where `low < high`.
pub open spec fn skip_two_spec(d: int, low: int, high: int) -> int {
    skip_one_spec(skip_one_spec(d, low), high)
}

/// How many indices other than `taken` lie below `i`.
pub open spec fn rank_one_spec(i: int, taken: int) -> int {
    if i > taken {
        i - 1
    } else {
        i
    }
}

/// How many indices other than `low` and `high` lie below `i`, where
/// `low < high`.
pub open spec fn rank_two_spec(i: int, low: int, high: int) -> int {
    rank_one_spec(rank_one_spec(i, high), low)
}

/// Skipping one index maps the draws below `n - 1` one to one, and in
/// order, onto the indices below `n` other than `taken`.
pub proof fn lemma_skip_one_onto(n: int, taken: int)
    requires
        0 <= taken < n,
    ensures
        forall|d: int|
            0 <= d < n - 1 ==> 0 <= #[trigger] skip_one_spec(d, taken) < n && skip_one_spec(
                d,
                taken,
            ) != taken,
        forall|d: int, e: int|
            0 <= d < e ==> #[trigger] skip_one_spec(d, taken) < #[trigger] skip_one_spec(e, taken),
        forall|i: int|
            0 <= i < n && i != taken ==> 0 <= #[trigger] rank_one_spec(i, taken) < n - 1
                && skip_one_spec(rank_one_spec(i, taken), taken) == i,
{
}

/// Skipping two indices maps the draws below `n - 2` one to one, and in
/// order, onto the indices below `n` other than `low` and `high`.
pub proof fn lemma_skip_two_onto(n: int, low: int, high: int)
    requires
        0 <= low < high < n,
    ensures
        forall|d: int|
            0 <= d < n - 2 ==> {
                &&& 0 <= #[trigger] skip_two_spec(d, low, high) < n
                &&& skip_two_spec(d, low, high) != low
                &&& skip_two_spec(d, low, high) != high
            },
        forall|d: int, e: int|
            0 <= d < e ==> #[trigger] skip_two_spec(d, low, high) < #[trigger] skip_two_spec(
                e,
                low,
                high,
            ),
        forall|i: int|
            0 <= i < n && i != low && i != high ==> 0 <= #[trigger] rank_two_spec(i, low, high)
                < n - 2 && skip_two_spec(rank_two_spec(i, low, high), low, high) == i,
{
}

/// Maps a draw from `0..n-1` onto the indices of `0..n` other than `taken`,
/// keeping their order.
pub fn skip_one(d: usize, taken: usize) -> (r: usize)
    requires
        d < usize::MAX,
    ensures
        r == skip_one_spec(d as int, taken as int),
        r != taken,
{
    if d >= taken {
        d + 1
    } else {
        d
    }
}

/// Maps a draw from `0..n-2` onto the indices of `0..n` other than `first`
/// and `second`, keeping their order.
pub fn skip_two(d: usize, first: usize, second: usize) -> (r: usize)
    requires
        d < usize::MAX - 1,
        first != second,
    ensures
        r == skip_two_spec(
            d as int,
            if first < second { first as int } else { second as int },
            if first < second { second as int } else { first as int },
        ),
        r != first,
        r != second,
{
    let low: usize = if first < second { first } else { second };
    let high: usize = if first < second { second } else { first };
    let past_low: usize = skip_one(d, low);
    skip_one(past_low, high)
}

/// Three pairwise distinct indices below `n`.
pub open spec fn distinct_triple(t: (usize, usize, usize), n: nat) -> bool {
    &&& t.0 < n
    &&& t.1 < n
    &&& t.2 < n
    &&& t.0 != t.1
    &&& t.0 != t.2
    &&& t.1 != t.2
}

/// Draws an index below `n` that differs from `first`.
///
/// A draw that collides is rejected and drawn again. After `REDRAW_LIMIT`
/// rejected draws one draw is taken from the `n - 1` free indices instead.
fn draw_second(rng: &mut StdRng, n: usize, first: usize) -> (r: usize)
    requires
        n >= 2,
        first < n,
    ensures
        r < n,
        r != first,
{
    let mut redraws: usize = 0;
    while redraws < REDRAW_LIMIT
        invariant
            n >= 2,
        decreases REDRAW_LIMIT - redraws,
    {
        let d: usize = draw_below(rng, n);
        if d != first {
            return d;
        }
        redraws = redraws + 1;
    }
    let d: usize = draw_below(rng, n - 1);
    skip_one(d, first)
}

/// Draws an index below `n` that differs from `first` and `second`.
///
/// A draw that collides is rejected and drawn again. After `REDRAW_LIMIT`
/// rejected draws one draw is taken from the `n - 2` free indices instead.
fn draw_third(rng: &mut StdRng, n: usize, first: usize, second: usize) -> (r: usize)
    requires
        n >= 3,
        first < n,
        second < n,
        first != second,
    ensures
        r < n,
        r != first,
        r != second,
{
    let mut redraws: usize = 0;
    while redraws < REDRAW_LIMIT
        invariant
            n >= 3,
        decreases REDRAW_LIMIT - redraws,
    {
        let d: usize = draw_below(rng, n);
        if d != first && d != second {
            return d;
        }
        redraws = redraws + 1;
    }
    let d: usize = draw_below(rng, n - 2);
    skip_two(d, first, second)
}

/// Draws three pairwise distinct indices from `0..n`.
///
/// Which indices come back depends on the generator; whatever it yields, the
/// three are in range and no two are equal.
pub fn sample_triple(rng: &mut StdRng, n: usize) -> (t: (usize, usize, usize))
    requires
        n >= 3,
    ensures
        distinct_triple(t, n as nat),
{
    let first: usize = draw_below(rng, n);
    let second: usize = draw_second(rng, n, first);
    let third: usize = draw_third(rng, n, first, second);
    (first, second, third)
}

} // verus!
