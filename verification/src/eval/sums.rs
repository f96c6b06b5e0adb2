use vstd::prelude::*;

use crate::types::bitboard::{count_bits_below, pop_count};
use crate::types::Bitboard;

verus! {

/// The sum of `f(s)` over the squares `s` below `n`.
pub open spec fn sum_below(f: spec_fn(int) -> int, n: int) -> int
    decreases n,
{
    if n <= 0 {
        0
    } else {
        sum_below(f, n - 1) + f(n - 1)
    }
}

/// The sum of `f(s)` over the squares `s` of `bb`.
pub open spec fn bb_sum(bb: Bitboard, f: spec_fn(int) -> int) -> int {
    sum_below(|s: int| if bb.contains(s) { f(s) } else { 0 }, 64)
}

/// The number of squares that satisfy `p`.
pub open spec fn count_where(p: spec_fn(int) -> bool) -> int {
    sum_below(|s: int| if p(s) { 1int } else { 0int }, 64)
}

/// A count of squares lies between 0 and 64.
pub proof fn lemma_count_bounds(p: spec_fn(int) -> bool)
    ensures
        0 <= count_where(p) <= 64,
{
    lemma_sum_bounds(|s: int| if p(s) { 1int } else { 0int }, 64, 1);
}

/// Sums of functions that agree below `n` agree.
pub proof fn lemma_sum_ext(f: spec_fn(int) -> int, g: spec_fn(int) -> int, n: int)
    requires
        forall|i: int| 0 <= i < n ==> #[trigger] f(i) == g(i),
    ensures
        sum_below(f, n) == sum_below(g, n),
    decreases n,
{
    if n > 0 {
        lemma_sum_ext(f, g, n - 1);
    }
}

/// Changing a function at one point `s` below `n` changes its sum by the difference.
pub proof fn lemma_sum_point(f: spec_fn(int) -> int, g: spec_fn(int) -> int, n: int, s: int)
    requires
        0 <= s < n,
        forall|i: int| 0 <= i < n && i != s ==> #[trigger] f(i) == g(i),
    ensures
        sum_below(g, n) == sum_below(f, n) - f(s) + g(s),
    decreases n,
{
    if n - 1 == s {
        lemma_sum_ext(f, g, n - 1);
    } else {
        lemma_sum_point(f, g, n - 1, s);
    }
}

/// A sum of values between 0 and `k` lies between 0 and `k * n`.
pub proof fn lemma_sum_bounds(f: spec_fn(int) -> int, n: int, k: int)
    requires
        n >= 0,
        forall|i: int| 0 <= i < n ==> 0 <= #[trigger] f(i) <= k,
    ensures
        0 <= sum_below(f, n) <= k * n,
    decreases n,
{
    if n > 0 {
        lemma_sum_bounds(f, n - 1, k);
        assert(0 <= f(n - 1) <= k);
        assert(k * (n - 1) + k == k * n) by (nonlinear_arith);
    } else {
        assert(k * n == 0) by (nonlinear_arith)
            requires
                n == 0,
        ;
    }
}

/// Taking square `s` out of a set takes `f(s)` out of its sum.
pub proof fn lemma_bb_sum_remove(bb: Bitboard, rest: Bitboard, s: int, f: spec_fn(int) -> int)
    requires
        bb.contains(s),
        forall|t: int| #[trigger] rest.contains(t) <==> bb.contains(t) && t != s,
    ensures
        bb_sum(bb, f) == bb_sum(rest, f) + f(s),
{
    let g1 = |t: int| if rest.contains(t) { f(t) } else { 0 };
    let g2 = |t: int| if bb.contains(t) { f(t) } else { 0 };
    lemma_sum_point(g1, g2, 64, s);
}

/// The sum over an empty set is 0.
pub proof fn lemma_bb_sum_empty(bb: Bitboard, f: spec_fn(int) -> int)
    requires
        forall|t: int| !#[trigger] bb.contains(t),
    ensures
        bb_sum(bb, f) == 0,
{
    let g = |t: int| if bb.contains(t) { f(t) } else { 0 };
    let z = |t: int| 0int;
    lemma_sum_ext(g, z, 64);
    lemma_sum_zero(64);
}

/// The sum of zeros is 0.
pub proof fn lemma_sum_zero(n: int)
    ensures
        sum_below(|t: int| 0int, n) == 0,
    decreases n,
{
    if n > 0 {
        lemma_sum_zero(n - 1);
    }
}

/// The number of set bits below `n` counts the squares of the set below `n`.
proof fn lemma_count_bits_sum(bb: Bitboard, n: int)
    ensures
        count_bits_below(bb@, n) == sum_below(|s: int| if bb.contains(s) { 1int } else { 0int }, n),
    decreases n,
{
    if n > 0 {
        lemma_count_bits_sum(bb, n - 1);
    }
}

/// The population count of a set counts the squares that a predicate holding exactly on the
/// set satisfies.
pub proof fn lemma_popcount_count(bb: Bitboard, p: spec_fn(int) -> bool)
    requires
        forall|t: int| 0 <= t < 64 ==> #[trigger] bb.contains(t) == p(t),
    ensures
        pop_count(bb@) == count_where(p),
{
    lemma_count_bits_sum(bb, 64);
    lemma_sum_ext(
        |s: int| if bb.contains(s) { 1int } else { 0int },
        |s: int| if p(s) { 1int } else { 0int },
        64,
    );
}

} // verus!
