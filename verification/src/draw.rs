//! Random draws as integers. A draw is a `u64`: the value `d` stands for the
//! number `d / 2^64`, so every draw lies in the half-open unit interval, and
//! what the generator makes of a draw is exact.

use vstd::prelude::*;

verus! {

/// The number of draws there are: a draw `d` stands for `d / DRAW_SPAN`.
pub const DRAW_SPAN: u128 = 0x1_0000_0000_0000_0000;

/// The index into `n` items that `draw` picks: the draw times `n`, rounded
/// down.
pub open spec fn scaled(draw: u64, n: nat) -> int {
    (draw as int * n as int) / (DRAW_SPAN as int)
}

/// The least whole weight whose share of `total` is at least `draw`.
pub open spec fn threshold(draw: u64, total: nat) -> int {
    (draw as int * total as int + (DRAW_SPAN as int) - 1) / (DRAW_SPAN as int)
}

/// A draw times a count is less than the count times the span.
pub proof fn lemma_draw_product(draw: u64, n: nat)
    ensures
        0 <= draw as int * n as int <= 0xffff_ffff_ffff_ffff * n as int,
{
    assert(0 <= draw as int * n as int <= 0xffff_ffff_ffff_ffff * n as int) by (nonlinear_arith)
        requires
            0 <= draw as int <= 0xffff_ffff_ffff_ffff,
            0 <= n as int,
    ;
}

/// A draw picks one of the `n` items.
pub proof fn lemma_scaled_in_range(draw: u64, n: nat)
    requires
        0 < n,
    ensures
        0 <= scaled(draw, n) < n,
{
    lemma_draw_product(draw, n);
}

/// A weight is at least the threshold exactly when its share of `total` is at
/// least the draw; and the whole of `total` always is.
pub proof fn lemma_threshold(draw: u64, total: nat, weight: int)
    ensures
        0 <= threshold(draw, total) <= total,
        weight >= threshold(draw, total) <==> weight * (DRAW_SPAN as int) >= draw as int
            * total as int,
{
    lemma_draw_product(draw, total);
}

/// The index into `n` items that `draw` picks.
pub fn scale(draw: u64, n: usize) -> (k: usize)
    requires
        n > 0,
    ensures
        k == scaled(draw, n as nat),
        k < n,
{
    proof {
        lemma_draw_product(draw, n as nat);
    }
    let wide: u128 = (draw as u128) * (n as u128);
    let k: u128 = wide / DRAW_SPAN;
    k as usize
}

/// The least whole weight whose share of `total` is at least `draw`.
pub fn weight_threshold(draw: u64, total: usize) -> (q: usize)
    ensures
        q == threshold(draw, total as nat),
        q <= total,
{
    proof {
        lemma_draw_product(draw, total as nat);
    }
    let wide: u128 = (draw as u128) * (total as u128);
    let q: u128 = (wide + (DRAW_SPAN - 1)) / DRAW_SPAN;
    q as usize
}

} // verus!
