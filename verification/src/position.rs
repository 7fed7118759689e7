//! A single trader's leveraged position: signed size, size-weighted entry
//! price, liquidation price and unrealized profit-and-loss, all in
//! fixed-point units of `1/SCALE`.

use vstd::prelude::*;
use crate::units::{SCALE, PRICE_CAP, abs, lemma_mul_bound, lemma_div_le};

verus! {

/// Magnitude bound on a position size under which every product the engine
/// forms during one operation fits the machine integers.
pub const RUN_CAP: i128 = 103_000_000_000_000_000_000;

/// One trader's position in one instrument. `size` is signed: positive is
/// long, negative is short. A trader with `size == 0` conceptually has no
/// position; the engine prunes entries only on liquidation.
#[derive(Clone, Copy, Debug, PartialEq, Eq, Structural)]
pub struct Position {
    pub size: i128,
    pub entry_price: u64,
    pub leverage: u64,
    pub liquidation_price: i128,
    pub unrealized_pnl: i128,
    pub margin: i128,
}

/// The mark price at which a position is forcibly closed:
/// `entry * (1 - 1/leverage)` for a net-long position and
/// `entry * (1 + 1/leverage)` for a net-short one, with the quotient
/// `entry * SCALE / leverage` truncated as the machine truncates it.
pub open spec fn liq_price_spec(entry: int, leverage: int, long: bool) -> int {
    let step = (entry * (SCALE as int)) / leverage;
    if long {
        entry - step
    } else {
        entry + step
    }
}

/// Unrealized profit-and-loss of a position of signed `size` entered at
/// `entry`, marked at `mark`: `size * (mark - entry)` for a long and
/// `size * (entry - mark)` for a short (the short formula keeps the sign
/// convention of the signed size), scaled back down by `SCALE`. The product
/// is formed on magnitudes and the sign applied afterwards, exactly as the
/// engine computes it.
pub open spec fn pnl_spec(size: int, entry: int, mark: int) -> int {
    let gain = if size > 0 {
        mark - entry
    } else {
        entry - mark
    };
    let mag = (abs(size) * abs(gain)) / (SCALE as int);
    let signed_gain = if gain >= 0 {
        mag
    } else {
        -mag
    };
    if size > 0 {
        signed_gain
    } else {
        -signed_gain
    }
}

/// Size-weighted average entry price after a fill of magnitude `delta_abs`
/// at `price` joins a position of magnitude `old_abs` entered at `entry`:
/// the fill price itself when the position was flat, else
/// `(entry*old_abs + price*delta_abs) / (old_abs + delta_abs)` truncated.
pub open spec fn weighted_entry_spec(entry: int, old_abs: int, price: int, delta_abs: int) -> int {
    if old_abs == 0 {
        price
    } else {
        (entry * old_abs + price * delta_abs) / (old_abs + delta_abs)
    }
}

/// Whether a position must be liquidated at `mark`: a long when the mark is
/// at or below its liquidation price, otherwise when the mark is at or above
/// it.
pub open spec fn should_liquidate_spec(p: Position, mark: int) -> bool {
    if p.size > 0 {
        mark <= p.liquidation_price
    } else {
        mark >= p.liquidation_price
    }
}

/// The position a constructor builds: unrealized profit starts at zero and
/// the liquidation price follows the sign of `size` (a flat position takes
/// the short formula).
pub open spec fn new_position_spec(size: i128, entry_price: u64, leverage: u64, margin: i128) -> Position {
    Position {
        size,
        entry_price,
        leverage,
        liquidation_price: liq_price_spec(entry_price as int, leverage as int, size > 0) as i128,
        unrealized_pnl: 0,
        margin,
    }
}

impl Position {
    /// Opens a position. The liquidation price is derived from the entry
    /// price and leverage; unrealized profit starts at zero.
    pub fn new(size: i128, entry_price: u64, leverage: u64, margin: i128) -> (r: Position)
        requires
            entry_price <= PRICE_CAP,
            leverage >= 1,
        ensures
            r == new_position_spec(size, entry_price, leverage, margin),
    {
        let long = size > 0;
        let liquidation_price = liq_price(entry_price, leverage, long);
        Position {
            size,
            entry_price,
            leverage,
            liquidation_price,
            unrealized_pnl: 0,
            margin,
        }
    }

    /// Refreshes `unrealized_pnl` against the given mark price; every other
    /// field is left unchanged.
    pub fn update_unrealized_pnl(&mut self, current_price: u64)
        requires
            abs(old(self).size as int) <= RUN_CAP,
            old(self).entry_price <= PRICE_CAP,
            current_price <= PRICE_CAP,
        ensures
            *final(self) == (Position {
                unrealized_pnl: pnl_spec(
                    old(self).size as int,
                    old(self).entry_price as int,
                    current_price as int,
                ) as i128,
                ..*old(self)
            }),
    {
        self.unrealized_pnl = pnl_value(self.size, self.entry_price, current_price);
    }

    /// Whether the position must be liquidated at the given mark price.
    pub fn should_liquidate(&self, current_price: u64) -> (r: bool)
        ensures
            r == should_liquidate_spec(*self, current_price as int),
    {
        if self.size > 0 {
            (current_price as i128) <= self.liquidation_price
        } else {
            (current_price as i128) >= self.liquidation_price
        }
    }
}

/// Computes `liq_price_spec` on machine integers.
pub(crate) fn liq_price(entry: u64, leverage: u64, long: bool) -> (r: i128)
    requires
        entry <= PRICE_CAP,
        leverage >= 1,
    ensures
        r as int == liq_price_spec(entry as int, leverage as int, long),
        abs(r as int) <= (PRICE_CAP as int) * (SCALE as int) + (PRICE_CAP as int),
{
    proof {
        lemma_mul_bound(entry as int, SCALE as int, PRICE_CAP as int, SCALE as int);
        lemma_div_le((entry as int) * (SCALE as int), leverage as int);
    }
    let scaled: u128 = (entry as u128) * (SCALE as u128);
    let step: u128 = scaled / (leverage as u128);
    if long {
        (entry as i128) - (step as i128)
    } else {
        (entry as i128) + (step as i128)
    }
}

/// Computes `pnl_spec` on machine integers.
pub(crate) fn pnl_value(size: i128, entry: u64, mark: u64) -> (r: i128)
    requires
        abs(size as int) <= RUN_CAP,
        entry <= PRICE_CAP,
        mark <= PRICE_CAP,
    ensures
        r as int == pnl_spec(size as int, entry as int, mark as int),
        abs(r as int) <= RUN_CAP * (PRICE_CAP as int),
{
    let size_abs: u128 = if size >= 0 {
        size as u128
    } else {
        (-size) as u128
    };
    let long = size > 0;
    let gain_pos: bool = if long {
        mark >= entry
    } else {
        entry >= mark
    };
    let gain_abs: u128 = if long {
        if mark >= entry {
            (mark - entry) as u128
        } else {
            (entry - mark) as u128
        }
    } else {
        if entry >= mark {
            (entry - mark) as u128
        } else {
            (mark - entry) as u128
        }
    };
    proof {
        lemma_mul_bound(size_abs as int, gain_abs as int, RUN_CAP as int, PRICE_CAP as int);
        lemma_div_le((size_abs as int) * (gain_abs as int), SCALE as int);
    }
    let mag: u128 = (size_abs * gain_abs) / (SCALE as u128);
    let signed_gain: i128 = if gain_pos {
        mag as i128
    } else {
        -(mag as i128)
    };
    if long {
        signed_gain
    } else {
        -signed_gain
    }
}

} // verus!
