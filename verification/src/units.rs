//! Fixed-point units and the bounds under which the engine's arithmetic is
//! proved free of overflow.
//!
//! Every price, size, margin and leverage is an integer count of `1/SCALE`
//! units (eight decimal places). A price expressed in these units is its own
//! canonical key: two prices that agree to eight decimals are the same
//! integer, so price levels cannot fragment, and numeric comparison of keys
//! is numeric comparison of prices.

use vstd::prelude::*;

verus! {

/// Number of fixed-point units in one whole: eight decimal places.
pub const SCALE: u64 = 100_000_000;

/// Largest price (in units) the engine accepts.
pub const PRICE_CAP: u64 = 1_000_000_000_000_000_000;

/// Largest order size (in units) the engine accepts.
pub const SIZE_CAP: u64 = 1_000_000_000_000_000_000;

/// Largest position size (in units, by magnitude) an operation may start from.
pub const POS_CAP: i128 = 100_000_000_000_000_000_000;

/// Largest position margin (in units, by magnitude) a funding tick may start from.
pub const MARGIN_CAP: i128 = 1_000_000_000_000_000_000_000_000_000_000;

/// Largest combined open interest (sum of position size magnitudes, in units)
/// a funding tick may start from.
pub const TOTAL_CAP: i128 = 1_000_000_000_000_000_000_000_000_000_000;

/// Magnitude of a signed quantity.
pub open spec fn abs(x: int) -> int {
    if x >= 0 {
        x
    } else {
        -x
    }
}

/// The smaller of two quantities.
pub open spec fn min_int(a: int, b: int) -> int {
    if a <= b {
        a
    } else {
        b
    }
}

/// Dividing a non-negative quantity by a positive one never enlarges it.
pub proof fn lemma_div_le(n: int, d: int)
    requires
        0 <= n,
        1 <= d,
    ensures
        0 <= n / d <= n,
{
    assert(0 <= n / d <= n) by (nonlinear_arith)
        requires
            0 <= n,
            1 <= d,
    ;
}

/// Truncated division agrees between the mathematical integers and the
/// machine when all operands are non-negative, so the engine computes on
/// magnitudes and applies signs afterwards.
pub proof fn lemma_div_bound(n: int, d: int, c: int)
    requires
        0 <= n,
        0 < d,
        n <= d * c,
        0 <= c,
    ensures
        n / d <= c,
{
    assert(n / d <= c) by (nonlinear_arith)
        requires
            0 <= n,
            0 < d,
            n <= d * c,
            0 <= c,
    ;
}

/// A product of bounded non-negative factors is bounded by the product of
/// the bounds.
pub proof fn lemma_mul_bound(a: int, b: int, ca: int, cb: int)
    requires
        0 <= a <= ca,
        0 <= b <= cb,
    ensures
        a * b <= ca * cb,
{
    assert(a * b <= ca * cb) by (nonlinear_arith)
        requires
            0 <= a <= ca,
            0 <= b <= cb,
    ;
}

} // verus!
