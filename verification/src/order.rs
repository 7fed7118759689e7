//! Order and trade records: immutable-once-created value types describing
//! incoming or resting orders and executed fills.

use vstd::prelude::*;

verus! {

/// Direction of an order or a position.
#[derive(Clone, Copy, Debug, PartialEq, Eq, Structural)]
pub enum Side {
    Long,
    Short,
}

/// Whether an unmatched remainder rests on the book (`Limit`) or is dropped
/// (`Market`).
#[derive(Clone, Copy, Debug, PartialEq, Eq, Structural)]
pub enum OrderType {
    Limit,
    Market,
}

/// Why an order was rejected. Validation failures happen before any state
/// mutation, so a rejected order leaves the book untouched.
#[derive(Clone, Copy, Debug, PartialEq, Eq, Structural)]
pub enum OrderError {
    InsufficientMargin,
    ExceedsMaxLeverage,
    InsufficientLiquidity,
    InvalidPrice,
    InvalidSize,
    OrderNotFound,
    PositionNotFound,
    LiquidationError,
}

/// An incoming or resting order. Prices, sizes and leverage are fixed-point
/// units of `1/SCALE`. Only `size` changes after creation (it is consumed by
/// fills while the order rests); every other field is immutable.
#[derive(Clone, Copy, Debug, PartialEq, Eq, Structural)]
pub struct Order {
    /// Identifier assigned by the book, never by the caller.
    pub id: u64,
    pub trader_id: u64,
    pub price: u64,
    pub size: u64,
    pub side: Side,
    pub order_type: OrderType,
    pub leverage: u64,
    pub timestamp: u64,
}

/// An executed fill. `price` is the resting (maker) order's price, not the
/// incoming order's. Immutable once created.
#[derive(Clone, Copy, Debug, PartialEq, Eq, Structural)]
pub struct Trade {
    pub id: u64,
    pub maker_order_id: u64,
    pub taker_order_id: u64,
    pub price: u64,
    pub size: u64,
    pub timestamp: u64,
}

impl Order {
    /// A fresh order as a caller submits it: the identifier is zero until the
    /// book assigns one. The creation time is supplied by the caller, since
    /// reading a clock is the host's business.
    pub fn new(
        trader_id: u64,
        price: u64,
        size: u64,
        side: Side,
        order_type: OrderType,
        leverage: u64,
        timestamp: u64,
    ) -> (r: Order)
        ensures
            r == (Order {
                id: 0,
                trader_id,
                price,
                size,
                side,
                order_type,
                leverage,
                timestamp,
            }),
    {
        Order { id: 0, trader_id, price, size, side, order_type, leverage, timestamp }
    }
}

} // verus!
