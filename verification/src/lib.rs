//! A per-instrument perpetual-futures matching and margin engine.
//!
//! The engine keeps a limit order book per instrument, matches incoming
//! orders against resting liquidity in price-time priority, tracks leveraged
//! positions, and computes liquidation and funding. All monetary quantities
//! (prices, sizes, margins, leverage) are fixed-point integers scaled by
//! `SCALE` (eight decimal places), so that two economically identical prices
//! always produce the same canonical price key and best-price selection
//! compares numerically.

mod units;
mod order;
mod position;
mod book;
mod registry;

pub use units::{SCALE, PRICE_CAP, SIZE_CAP, POS_CAP, MARGIN_CAP, TOTAL_CAP};
pub use order::{Side, OrderType, Order, Trade, OrderError};
pub use position::Position;
pub use book::{Level, PositionEntry, Fill, PerpetualOrderBook, clone_vec};
pub use registry::{AppState, BookEntry, Message};
