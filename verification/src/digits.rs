use vstd::arithmetic::div_mod::{lemma_basic_div, lemma_hoist_over_denominator};
use vstd::arithmetic::power2::{lemma_pow2_adds, lemma_pow2_pos, lemma_pow2_unfold, pow2};
use vstd::prelude::*;

verus! {

/// The binary digit of `n` at position `i` is one.
pub open spec fn bit(n: nat, i: nat) -> bool {
    (n / pow2(i)) % 2 == 1
}

/// Adding a power of two leaves the digits below its position as they are.
pub proof fn lemma_bit_below(n: nat, top: nat, i: nat)
    requires
        i < top,
    ensures
        bit(n + pow2(top), i) == bit(n, i),
{
    let low = pow2(i);
    let half = pow2((top - i - 1) as nat);
    lemma_pow2_pos(i);
    lemma_pow2_adds(i, (top - i) as nat);
    lemma_pow2_unfold((top - i) as nat);
    assert(pow2(top) == (2 * half) * low) by (nonlinear_arith)
        requires
            pow2(top) == low * pow2((top - i) as nat),
            pow2((top - i) as nat) == 2 * half,
    ;
    lemma_hoist_over_denominator(n as int, (2 * half) as int, low);
}

/// Adding the power of two of a position above all the digits of `n` sets the digit
/// at that position, which was zero.
pub proof fn lemma_bit_top(n: nat, top: nat)
    requires
        n < pow2(top),
    ensures
        bit(n + pow2(top), top),
        !bit(n, top),
{
    lemma_pow2_pos(top);
    lemma_basic_div(n as int, pow2(top) as int);
    lemma_hoist_over_denominator(n as int, 1, pow2(top));
}

} // verus!
