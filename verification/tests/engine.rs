use perp_engine::{AppState, Order, OrderError, OrderType, PerpetualOrderBook, Position, Side};

// One whole unit in fixed-point: eight decimal places.
const S: u64 = 100_000_000;

fn book() -> PerpetualOrderBook {
    // mark price 100, minimum margin 1, maximum leverage 20
    PerpetualOrderBook::new(100 * S, S, 20 * S)
}

fn order(trader: u64, price: u64, size: u64, side: Side, kind: OrderType, leverage: u64) -> Order {
    Order::new(trader, price, size, side, kind, leverage, 7)
}

fn position(b: &PerpetualOrderBook, trader: u64) -> Option<Position> {
    for e in b.positions.iter() {
        if e.trader_id == trader {
            return Some(e.position);
        }
    }
    None
}

#[test]
fn margin_accepted_at_both_boundaries() {
    // required margin = price * size / leverage = 1 * 10 / 10 = 1 = min_margin
    let mut b = book();
    let o = order(1, S, 10 * S, Side::Long, OrderType::Limit, 10 * S);
    let r = b.place_order(o, S);
    assert!(r.is_ok());
    assert_eq!(r.unwrap().len(), 0);
}

#[test]
fn margin_below_available_rejected() {
    let mut b = book();
    let o = order(1, S, 10 * S, Side::Long, OrderType::Limit, 10 * S);
    // required margin is exactly 1.0; one unit less available must fail
    let r = b.place_order(o, S - 1);
    assert_eq!(r.unwrap_err(), OrderError::InsufficientMargin);
}

#[test]
fn margin_below_minimum_rejected() {
    let mut b = book();
    // required margin = 1 * 10 / 20 = 0.5 < min_margin = 1
    let o = order(1, S, 10 * S, Side::Long, OrderType::Limit, 20 * S);
    let r = b.place_order(o, 100 * S);
    assert_eq!(r.unwrap_err(), OrderError::InsufficientMargin);
}

#[test]
fn invalid_price_and_size_rejected() {
    let mut b = book();
    let r = b.place_order(order(1, 0, 10 * S, Side::Long, OrderType::Limit, 10 * S), 100 * S);
    assert_eq!(r.unwrap_err(), OrderError::InvalidPrice);
    let r = b.place_order(order(1, 100 * S, 0, Side::Long, OrderType::Limit, 10 * S), 100 * S);
    assert_eq!(r.unwrap_err(), OrderError::InvalidPrice);
}

#[test]
fn leverage_above_cap_rejected() {
    let mut b = book();
    let o = order(1, 100 * S, 10 * S, Side::Long, OrderType::Limit, 21 * S);
    let r = b.place_order(o, 10_000 * S);
    assert_eq!(r.unwrap_err(), OrderError::ExceedsMaxLeverage);
}

#[test]
fn price_time_priority_within_level() {
    let mut b = book();
    // two asks rest at the same price, first trader 1, then trader 2
    b.place_order(order(1, 101 * S, 5 * S, Side::Short, OrderType::Limit, 10 * S), 100 * S)
        .unwrap();
    b.place_order(order(2, 101 * S, 5 * S, Side::Short, OrderType::Limit, 10 * S), 100 * S)
        .unwrap();
    // a long taker for 7 must fill order 1 completely before order 2 sees any
    let tr = b
        .place_order(order(3, 101 * S, 7 * S, Side::Long, OrderType::Limit, 10 * S), 100 * S)
        .unwrap();
    assert_eq!(tr.len(), 2);
    assert_eq!(tr[0].maker_order_id, 1);
    assert_eq!(tr[0].size, 5 * S);
    assert_eq!(tr[1].maker_order_id, 2);
    assert_eq!(tr[1].size, 2 * S);
    assert_eq!(tr[0].price, 101 * S);
    assert_eq!(tr[1].price, 101 * S);
}

#[test]
fn fills_sum_to_position_sizes() {
    let mut b = book();
    b.place_order(order(1, 101 * S, 5 * S, Side::Short, OrderType::Limit, 10 * S), 100 * S)
        .unwrap();
    b.place_order(order(2, 101 * S, 5 * S, Side::Short, OrderType::Limit, 10 * S), 100 * S)
        .unwrap();
    let tr = b
        .place_order(order(3, 101 * S, 7 * S, Side::Long, OrderType::Limit, 10 * S), 100 * S)
        .unwrap();
    let taken: u64 = tr.iter().map(|t| t.size).sum();
    assert_eq!(position(&b, 3).unwrap().size, taken as i128);
    assert_eq!(position(&b, 1).unwrap().size, -((5 * S) as i128));
    assert_eq!(position(&b, 2).unwrap().size, -((2 * S) as i128));
}

#[test]
fn end_to_end_limit_then_market() {
    let mut b = book();
    // trader 1 rests a long limit order: no liquidity to match
    let tr = b
        .place_order(order(1, 100 * S, 10 * S, Side::Long, OrderType::Limit, 10 * S), 100 * S)
        .unwrap();
    assert_eq!(tr.len(), 0);
    assert_eq!(b.bids.len(), 1);
    assert_eq!(b.bids[0].price, 100 * S);
    // trader 2 hits it with a short market order
    let tr = b
        .place_order(order(2, 100 * S, 10 * S, Side::Short, OrderType::Market, 10 * S), 100 * S)
        .unwrap();
    assert_eq!(tr.len(), 1);
    assert_eq!(tr[0].price, 100 * S);
    assert_eq!(tr[0].size, 10 * S);
    let a = position(&b, 1).unwrap();
    let z = position(&b, 2).unwrap();
    assert_eq!(a.entry_price, 100 * S);
    assert_eq!(z.entry_price, 100 * S);
    assert_eq!(a.liquidation_price, (90 * S) as i128);
    assert_eq!(z.liquidation_price, (110 * S) as i128);
    assert_eq!(a.size, (10 * S) as i128);
    assert_eq!(z.size, -((10 * S) as i128));
    // the consumed bid level is removed, the market order never rests
    assert_eq!(b.bids.len(), 0);
    assert_eq!(b.asks.len(), 0);
}

#[test]
fn partial_fill_rests_remainder_on_own_side() {
    let mut b = book();
    // resting ask of size 5 at 101
    b.place_order(order(1, 101 * S, 5 * S, Side::Short, OrderType::Limit, 10 * S), 100 * S)
        .unwrap();
    // incoming long limit of size 8 at 101: one trade of 5, remainder 3 rests as a bid
    let tr = b
        .place_order(order(2, 101 * S, 8 * S, Side::Long, OrderType::Limit, 10 * S), 100 * S)
        .unwrap();
    assert_eq!(tr.len(), 1);
    assert_eq!(tr[0].size, 5 * S);
    assert_eq!(tr[0].price, 101 * S);
    assert_eq!(b.asks.len(), 0);
    assert_eq!(b.bids.len(), 1);
    assert_eq!(b.bids[0].price, 101 * S);
    assert_eq!(b.bids[0].orders.len(), 1);
    assert_eq!(b.bids[0].orders[0].size, 3 * S);
    assert_eq!(b.bids[0].orders[0].trader_id, 2);
}

#[test]
fn liquidation_at_boundary_not_above() {
    let mut b = book();
    b.place_order(order(1, 100 * S, 10 * S, Side::Long, OrderType::Limit, 10 * S), 100 * S)
        .unwrap();
    b.place_order(order(2, 100 * S, 10 * S, Side::Short, OrderType::Market, 10 * S), 100 * S)
        .unwrap();
    // long entry 100, leverage 10: liquidation price is 90
    // a mark of 90.01 must not liquidate it
    let liq = b.update_mark_price(90 * S + S / 100);
    assert_eq!(liq.len(), 0);
    assert!(position(&b, 1).is_some());
    // a mark of exactly 90 must
    let liq = b.update_mark_price(90 * S);
    assert_eq!(liq, vec![1]);
    assert!(position(&b, 1).is_none());
    // the short survives: its liquidation price is 110
    assert!(position(&b, 2).is_some());
}

#[test]
fn unrealized_pnl_refreshed_on_mark_move() {
    let mut b = book();
    b.place_order(order(1, 100 * S, 10 * S, Side::Long, OrderType::Limit, 10 * S), 100 * S)
        .unwrap();
    b.place_order(order(2, 100 * S, 10 * S, Side::Short, OrderType::Market, 10 * S), 100 * S)
        .unwrap();
    b.update_mark_price(105 * S);
    // long: 10 * (105 - 100) = 50
    assert_eq!(position(&b, 1).unwrap().unrealized_pnl, (50 * S) as i128);
}

#[test]
fn funding_neutral_when_balanced() {
    let mut b = book();
    b.place_order(order(1, 100 * S, 10 * S, Side::Long, OrderType::Limit, 10 * S), 100 * S)
        .unwrap();
    b.place_order(order(2, 100 * S, 10 * S, Side::Short, OrderType::Market, 10 * S), 100 * S)
        .unwrap();
    let m1 = position(&b, 1).unwrap().margin;
    let m2 = position(&b, 2).unwrap().margin;
    b.update_funding_rate();
    assert_eq!(b.funding_rate, 0);
    assert_eq!(position(&b, 1).unwrap().margin, m1);
    assert_eq!(position(&b, 2).unwrap().margin, m2);
}

#[test]
fn funding_debits_longs_when_imbalanced() {
    let mut b = book();
    b.place_order(order(1, 100 * S, 10 * S, Side::Long, OrderType::Limit, 10 * S), 100 * S)
        .unwrap();
    b.place_order(order(2, 100 * S, 10 * S, Side::Short, OrderType::Market, 10 * S), 100 * S)
        .unwrap();
    // liquidate the short so only the long side remains
    b.update_mark_price(110 * S);
    assert!(position(&b, 2).is_none());
    b.update_funding_rate();
    // rate caps at +1%: 0.01 in units
    assert_eq!(b.funding_rate, (S / 100) as i64);
    // payment = 10 * 110 * 0.01 = 11, debited from the long's margin of 100
    assert_eq!(position(&b, 1).unwrap().margin, (89 * S) as i128);
}

#[test]
fn market_remainder_dropped_without_error() {
    let mut b = book();
    let tr = b
        .place_order(order(1, 100 * S, 10 * S, Side::Short, OrderType::Market, 10 * S), 100 * S)
        .unwrap();
    assert_eq!(tr.len(), 0);
    assert_eq!(b.bids.len(), 0);
    assert_eq!(b.asks.len(), 0);
}

#[test]
fn position_constructor_and_liquidation_check() {
    let p = Position::new((10 * S) as i128, 100 * S, 10 * S, (100 * S) as i128);
    assert_eq!(p.liquidation_price, (90 * S) as i128);
    assert!(p.should_liquidate(90 * S));
    assert!(!p.should_liquidate(90 * S + 1));
    let mut q = Position::new(-((10 * S) as i128), 100 * S, 10 * S, (100 * S) as i128);
    assert_eq!(q.liquidation_price, (110 * S) as i128);
    assert!(q.should_liquidate(110 * S));
    assert!(!q.should_liquidate(110 * S - 1));
    // the engine's short convention: size * (entry - mark)
    q.update_unrealized_pnl(90 * S);
    assert_eq!(q.unrealized_pnl, -((100 * S) as i128));
}

#[test]
fn registry_routes_and_reports_missing_books() {
    let mut st = AppState::init();
    st.create_perpetual_order_book(7, 100 * S, S, 20 * S);
    let r = st.place_order(7, order(1, 100 * S, 10 * S, Side::Long, OrderType::Limit, 10 * S), 100 * S);
    assert_eq!(r.unwrap().len(), 0);
    let r = st.place_order(9, order(1, 100 * S, 10 * S, Side::Long, OrderType::Limit, 10 * S), 100 * S);
    assert_eq!(r.unwrap_err(), OrderError::OrderNotFound);
    let r = st.update_mark_price(7, 101 * S);
    assert_eq!(r.unwrap().len(), 0);
    assert_eq!(st.update_mark_price(9, 101 * S).unwrap_err(), OrderError::OrderNotFound);
    assert!(st.update_funding_rate(7).is_ok());
    assert_eq!(st.update_funding_rate(9).unwrap_err(), OrderError::OrderNotFound);
}

#[test]
fn replacing_a_book_resets_it() {
    let mut st = AppState::init();
    st.create_perpetual_order_book(7, 100 * S, S, 20 * S);
    st.place_order(7, order(1, 100 * S, 10 * S, Side::Long, OrderType::Limit, 10 * S), 100 * S)
        .unwrap();
    st.create_perpetual_order_book(7, 200 * S, S, 20 * S);
    assert_eq!(st.perpetual_order_book.len(), 1);
    let b = &st.perpetual_order_book[0].book;
    assert_eq!(b.mark_price, 200 * S);
    assert_eq!(b.bids.len(), 0);
    assert_eq!(b.next_id, 1);
}

#[test]
fn trade_history_is_appended() {
    let mut b = book();
    b.place_order(order(1, 100 * S, 10 * S, Side::Long, OrderType::Limit, 10 * S), 100 * S)
        .unwrap();
    let tr = b
        .place_order(order(2, 100 * S, 4 * S, Side::Short, OrderType::Limit, 10 * S), 100 * S)
        .unwrap();
    assert_eq!(b.trades.len(), 1);
    assert_eq!(b.trades[0], tr[0]);
    let tr2 = b
        .place_order(order(3, 100 * S, 6 * S, Side::Short, OrderType::Limit, 10 * S), 100 * S)
        .unwrap();
    assert_eq!(b.trades.len(), 2);
    assert_eq!(b.trades[1], tr2[0]);
}

#[test]
fn limit_taker_stops_at_its_price() {
    let mut b = book();
    // ask rests at 102, above the taker's limit of 101: no match, taker rests
    b.place_order(order(1, 102 * S, 5 * S, Side::Short, OrderType::Limit, 10 * S), 100 * S)
        .unwrap();
    let tr = b
        .place_order(order(2, 101 * S, 5 * S, Side::Long, OrderType::Limit, 10 * S), 100 * S)
        .unwrap();
    assert_eq!(tr.len(), 0);
    assert_eq!(b.asks.len(), 1);
    assert_eq!(b.bids.len(), 1);
    assert_eq!(b.bids[0].price, 101 * S);
}

#[test]
fn best_price_chosen_numerically() {
    let mut b = book();
    // two ask levels; the lower price must fill first
    b.place_order(order(1, 105 * S, 5 * S, Side::Short, OrderType::Limit, 10 * S), 100 * S)
        .unwrap();
    b.place_order(order(2, 101 * S, 5 * S, Side::Short, OrderType::Limit, 10 * S), 100 * S)
        .unwrap();
    let tr = b
        .place_order(order(3, 105 * S, 8 * S, Side::Long, OrderType::Limit, 10 * S), 200 * S)
        .unwrap();
    assert_eq!(tr.len(), 2);
    assert_eq!(tr[0].price, 101 * S);
    assert_eq!(tr[1].price, 105 * S);
}
