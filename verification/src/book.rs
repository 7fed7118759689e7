//! The per-instrument order book: two sides of price levels, the open
//! positions, the trade history, and the matching, liquidation and funding
//! logic.
//!
//! A side of the book is a sequence of price levels; each level holds the
//! resting orders at one canonical price in insertion order (time priority).
//! Best-price selection compares level prices numerically. Level mutation is
//! read-modify-write of the level as a unit, so no observer of the book sees
//! an intermediate state.

use vstd::prelude::*;
use crate::units::{SCALE, PRICE_CAP, SIZE_CAP, POS_CAP, MARGIN_CAP, TOTAL_CAP, abs, min_int};
use crate::order::{Side, OrderType, Order, Trade, OrderError};
use crate::position::{Position, RUN_CAP};

verus! {

/// All resting orders at one canonical price on one side of the book, in
/// insertion order.
#[derive(Debug)]
pub struct Level {
    pub price: u64,
    pub orders: Vec<Order>,
}

/// One trader's entry in the position table.
#[derive(Clone, Copy, Debug, PartialEq, Eq, Structural)]
pub struct PositionEntry {
    pub trader_id: u64,
    pub position: Position,
}

/// One fill taken from a price level: the index of the maker order within
/// the level and the matched size.
#[derive(Clone, Copy, Debug, PartialEq, Eq, Structural)]
pub struct Fill {
    pub idx: usize,
    pub size: u64,
}

/// A perpetual-futures order book for a single instrument.
pub struct PerpetualOrderBook {
    pub next_id: u64,
    pub bids: Vec<Level>,
    pub asks: Vec<Level>,
    pub positions: Vec<PositionEntry>,
    pub trades: Vec<Trade>,
    pub mark_price: u64,
    pub funding_rate: i64,
    pub min_margin: u64,
    pub max_leverage: u64,
}

/// A well-formed price level: non-empty, a positive capped price, and every
/// resting order of positive capped size with positive leverage.
pub open spec fn level_wf(l: Level) -> bool {
    &&& l.orders@.len() > 0
    &&& 0 < l.price <= PRICE_CAP
    &&& forall|k: int|
        0 <= k < l.orders@.len() ==> {
            &&& 0 < #[trigger] l.orders@[k].size <= SIZE_CAP
            &&& l.orders@[k].leverage >= 1
        }
}

/// A well-formed side of the book: every level well formed and level prices
/// pairwise distinct (empty levels are removed, never left behind).
pub open spec fn side_wf(levels: Seq<Level>) -> bool {
    &&& forall|i: int| 0 <= i < levels.len() ==> level_wf(#[trigger] levels[i])
    &&& forall|i: int, j: int|
        0 <= i < j < levels.len() ==> #[trigger] levels[i].price != #[trigger] levels[j].price
}

/// A well-formed position table: trader identifiers pairwise distinct and
/// every position's entry price capped with positive leverage.
pub open spec fn positions_wf(es: Seq<PositionEntry>) -> bool {
    &&& forall|i: int, j: int|
        0 <= i < j < es.len() ==> #[trigger] es[i].trader_id != #[trigger] es[j].trader_id
    &&& forall|i: int|
        0 <= i < es.len() ==> {
            &&& #[trigger] es[i].position.entry_price <= PRICE_CAP
            &&& es[i].position.leverage >= 1
        }
}

/// Every position size magnitude at most `q`.
pub open spec fn positions_sized_le(es: Seq<PositionEntry>, q: int) -> bool {
    forall|i: int| 0 <= i < es.len() ==> abs(#[trigger] es[i].position.size as int) <= q
}

/// Every position margin magnitude at most `q`.
pub open spec fn margins_le(es: Seq<PositionEntry>, q: int) -> bool {
    forall|i: int| 0 <= i < es.len() ==> abs(#[trigger] es[i].position.margin as int) <= q
}

/// Index of the entry for `t` in the position table, `-1` if absent.
pub open spec fn find_index(es: Seq<PositionEntry>, t: u64) -> int
    decreases es.len(),
{
    if es.len() == 0 {
        -1
    } else if es[0].trader_id == t {
        0
    } else {
        let r = find_index(es.drop_first(), t);
        if r < 0 {
            -1
        } else {
            r + 1
        }
    }
}

/// The position held by trader `t`, if any.
pub open spec fn find_position(es: Seq<PositionEntry>, t: u64) -> Option<Position> {
    let i = find_index(es, t);
    if i < 0 {
        None
    } else {
        Some(es[i].position)
    }
}

/// The signed position size of trader `t`, zero if the trader has none.
pub open spec fn pos_size_of(es: Seq<PositionEntry>, t: u64) -> int {
    match find_position(es, t) {
        Some(p) => p.size as int,
        None => 0,
    }
}

/// The position table after trader `t`'s entry is replaced, or created if
/// absent.
pub open spec fn upsert(es: Seq<PositionEntry>, t: u64, p: Position) -> Seq<PositionEntry> {
    let i = find_index(es, t);
    if i < 0 {
        es.push(PositionEntry { trader_id: t, position: p })
    } else {
        es.update(i, PositionEntry { trader_id: t, position: p })
    }
}

pub proof fn lemma_find_index_props(es: Seq<PositionEntry>, t: u64)
    ensures
        -1 <= find_index(es, t) < es.len(),
        find_index(es, t) >= 0 ==> es[find_index(es, t)].trader_id == t,
        find_index(es, t) == -1 ==> forall|j: int| 0 <= j < es.len() ==> #[trigger] es[j].trader_id != t,
    decreases es.len(),
{
    if es.len() > 0 && es[0].trader_id != t {
        lemma_find_index_props(es.drop_first(), t);
        if find_index(es, t) == -1 {
            assert forall|j: int| 0 <= j < es.len() implies #[trigger] es[j].trader_id != t by {
                if j > 0 {
                    assert(es.drop_first()[j - 1] == es[j]);
                }
            }
        }
    }
}

/// A linear scan that stops at the first entry for `t` finds exactly
/// `find_index`.
pub proof fn lemma_find_index_at(es: Seq<PositionEntry>, t: u64, i: int)
    requires
        0 <= i < es.len(),
        es[i].trader_id == t,
        forall|j: int| 0 <= j < i ==> #[trigger] es[j].trader_id != t,
    ensures
        find_index(es, t) == i,
    decreases i,
{
    if i > 0 {
        lemma_find_index_at(es.drop_first(), t, i - 1);
    }
}

/// Whether some level on this side carries the given canonical price.
pub open spec fn has_price(levels: Seq<Level>, p: u64) -> bool {
    exists|i: int| 0 <= i < levels.len() && #[trigger] levels[i].price == p
}

impl PerpetualOrderBook {
    /// The book's structural invariant: both sides well formed, the position
    /// table well formed, the mark price capped, and the funding rate within
    /// the one-percent cap its construction guarantees.
    pub open spec fn wf(self) -> bool {
        &&& side_wf(self.bids@)
        &&& side_wf(self.asks@)
        &&& positions_wf(self.positions@)
        &&& self.mark_price <= PRICE_CAP
        &&& abs(self.funding_rate as int) <= SCALE / 100
    }

    /// The side the taker consumes: asks for a long taker, bids for a short
    /// one.
    pub open spec fn opposing(self, side: Side) -> Seq<Level> {
        if side is Long {
            self.asks@
        } else {
            self.bids@
        }
    }

    /// The taker's own side, where a limit remainder rests.
    pub open spec fn same_side(self, side: Side) -> Seq<Level> {
        if side is Long {
            self.bids@
        } else {
            self.asks@
        }
    }

    /// A fresh book: empty sides, no positions, no trades, identifiers start
    /// at one, funding rate zero.
    pub fn new(initial_mark_price: u64, min_margin: u64, max_leverage: u64) -> (r: PerpetualOrderBook)
        requires
            initial_mark_price <= PRICE_CAP,
        ensures
            r.next_id == 1,
            r.bids@.len() == 0,
            r.asks@.len() == 0,
            r.positions@.len() == 0,
            r.trades@.len() == 0,
            r.mark_price == initial_mark_price,
            r.funding_rate == 0,
            r.min_margin == min_margin,
            r.max_leverage == max_leverage,
            r.wf(),
    {
        PerpetualOrderBook {
            next_id: 1,
            bids: Vec::new(),
            asks: Vec::new(),
            positions: Vec::new(),
            trades: Vec::new(),
            mark_price: initial_mark_price,
            funding_rate: 0,
            min_margin,
            max_leverage,
        }
    }

    /// Hands out the next order or trade identifier and advances the counter.
    fn generate_id(&mut self) -> (r: u64)
        requires
            old(self).next_id < u64::MAX,
        ensures
            r == old(self).next_id,
            *final(self) == (PerpetualOrderBook { next_id: (old(self).next_id + 1) as u64, ..*old(self) }),
    {
        let id = self.next_id;
        self.next_id = self.next_id + 1;
        id
    }

    /// The lowest-priced ask level, if any ask level exists.
    fn find_best_ask(&self) -> (r: Option<usize>)
        ensures
            match r {
                None => self.asks@.len() == 0,
                Some(i) => i < self.asks@.len() && forall|j: int|
                    0 <= j < self.asks@.len() ==> self.asks@[i as int].price <= #[trigger] self.asks@[j].price,
            },
    {
        best_level(&self.asks, true)
    }

    /// The highest-priced bid level, if any bid level exists.
    fn find_best_bid(&self) -> (r: Option<usize>)
        ensures
            match r {
                None => self.bids@.len() == 0,
                Some(i) => i < self.bids@.len() && forall|j: int|
                    0 <= j < self.bids@.len() ==> self.bids@[i as int].price >= #[trigger] self.bids@[j].price,
            },
    {
        best_level(&self.bids, false)
    }
}

/// Index of the numerically best level price on one side: the minimum when
/// `lowest` is set (asks), else the maximum (bids).
fn best_level(levels: &Vec<Level>, lowest: bool) -> (r: Option<usize>)
    ensures
        match r {
            None => levels@.len() == 0,
            Some(i) => i < levels@.len() && forall|j: int|
                0 <= j < levels@.len() ==> if lowest {
                    levels@[i as int].price <= #[trigger] levels@[j].price
                } else {
                    levels@[i as int].price >= #[trigger] levels@[j].price
                },
        },
{
    if levels.len() == 0 {
        return None;
    }
    let mut best: usize = 0;
    let mut i: usize = 1;
    while i < levels.len()
        invariant
            0 <= best < i <= levels@.len(),
            forall|j: int|
                0 <= j < i ==> if lowest {
                    levels@[best as int].price <= #[trigger] levels@[j].price
                } else {
                    levels@[best as int].price >= #[trigger] levels@[j].price
                },
        decreases levels@.len() - i,
    {
        let better = if lowest {
            levels[i].price < levels[best].price
        } else {
            levels[i].price > levels[best].price
        };
        if better {
            best = i;
        }
        i = i + 1;
    }
    Some(best)
}

/// Index of the level carrying price `p` on one side, if present.
fn find_level_index(levels: &Vec<Level>, p: u64) -> (r: Option<usize>)
    ensures
        match r {
            None => !has_price(levels@, p),
            Some(i) => i < levels@.len() && levels@[i as int].price == p,
        },
{
    let mut i: usize = 0;
    while i < levels.len()
        invariant
            0 <= i <= levels@.len(),
            forall|j: int| 0 <= j < i ==> #[trigger] levels@[j].price != p,
        decreases levels@.len() - i,
    {
        if levels[i].price == p {
            return Some(i);
        }
        i = i + 1;
    }
    None
}

/// The fills a taker with `remaining` size to place takes from the resting
/// orders of one level, visiting them in time-priority (insertion) order
/// from index `from`: each maker order of nonzero size is matched for
/// `min(remaining, size)` until the taker is exhausted; zero-size orders are
/// skipped.
pub open spec fn level_fills(orders: Seq<Order>, from: int, remaining: int) -> Seq<Fill>
    decreases orders.len() - from,
{
    if from < 0 || from >= orders.len() || remaining <= 0 {
        Seq::empty()
    } else {
        let o = orders[from];
        if o.size == 0 {
            level_fills(orders, from + 1, remaining)
        } else {
            let ts = min_int(remaining, o.size as int);
            seq![Fill { idx: from as usize, size: ts as u64 }] + level_fills(
                orders,
                from + 1,
                remaining - ts,
            )
        }
    }
}

/// The orders of a level that survive the pass of `level_fills`: fully
/// consumed orders are removed, a partially consumed one keeps its residual
/// size, untouched positive-size orders are kept in their original order.
pub open spec fn level_after(orders: Seq<Order>, from: int, remaining: int) -> Seq<Order>
    decreases orders.len() - from,
{
    if from < 0 || from >= orders.len() {
        Seq::empty()
    } else {
        let o = orders[from];
        if o.size == 0 {
            level_after(orders, from + 1, remaining)
        } else if remaining <= 0 {
            seq![o] + level_after(orders, from + 1, 0)
        } else {
            let ts = min_int(remaining, o.size as int);
            let rest = level_after(orders, from + 1, remaining - ts);
            if o.size as int > ts {
                seq![(Order { size: (o.size as int - ts) as u64, ..o })] + rest
            } else {
                rest
            }
        }
    }
}

/// Total size matched by a sequence of fills, from index `from` on.
pub open spec fn fills_total(fs: Seq<Fill>, from: int) -> int
    decreases fs.len() - from,
{
    if from < 0 || from >= fs.len() {
        0
    } else {
        fs[from].size + fills_total(fs, from + 1)
    }
}

pub proof fn lemma_fills_total_push(fs: Seq<Fill>, f: Fill, from: int)
    requires
        0 <= from <= fs.len(),
    ensures
        fills_total(fs.push(f), from) == fills_total(fs, from) + f.size,
    decreases fs.len() - from,
{
    if from < fs.len() {
        lemma_fills_total_push(fs, f, from + 1);
    } else {
        assert(fills_total(fs.push(f), from + 1) == 0);
    }
}

/// `m` is one of the resting orders from index `from` on, unchanged except
/// for a positive size of at most its resting size.
pub open spec fn order_shrunk_from(orders: Seq<Order>, from: int, m: Order) -> bool {
    exists|j: int|
        from <= j < orders.len() && m == (Order { size: m.size, ..orders[j] }) && 0 < m.size
            <= #[trigger] orders[j].size
}

/// What one pass over a level guarantees: the matched total never exceeds
/// the taker's remaining size; every fill names a distinct in-range maker of
/// positive size, matched for no more than that size and in strictly
/// increasing (time-priority) index order; the pass cannot produce more
/// fills or keep more orders than the level held; if the taker is not
/// exhausted, the whole level was consumed; and every surviving order is a
/// resting order of the level, unchanged except for a possibly reduced size.
pub proof fn lemma_consume_props(orders: Seq<Order>, from: int, remaining: int)
    requires
        0 <= from <= orders.len(),
        orders.len() <= usize::MAX,
        remaining >= 0,
    ensures
        0 <= fills_total(level_fills(orders, from, remaining), 0) <= remaining,
        forall|k: int|
            0 <= k < level_fills(orders, from, remaining).len() ==> {
                let f = #[trigger] level_fills(orders, from, remaining)[k];
                &&& from <= f.idx < orders.len()
                &&& 0 < f.size <= orders[f.idx as int].size
            },
        forall|k1: int, k2: int|
            0 <= k1 < k2 < level_fills(orders, from, remaining).len()
                ==> #[trigger] level_fills(orders, from, remaining)[k1].idx
                < #[trigger] level_fills(orders, from, remaining)[k2].idx,
        level_fills(orders, from, remaining).len() <= orders.len() - from,
        level_after(orders, from, remaining).len() <= orders.len() - from,
        remaining - fills_total(level_fills(orders, from, remaining), 0) > 0
            ==> level_after(orders, from, remaining).len() == 0,
        level_fills(orders, from, remaining).len() + level_after(orders, from, remaining).len()
            <= orders.len() - from + 1,
        forall|k: int|
            0 <= k < level_after(orders, from, remaining).len() ==> order_shrunk_from(
                orders,
                from,
                #[trigger] level_after(orders, from, remaining)[k],
            ),
    decreases orders.len() - from,
{
    let fs = level_fills(orders, from, remaining);
    let af = level_after(orders, from, remaining);
    if from >= orders.len() {
    } else {
        let o = orders[from];
        if o.size == 0 {
            lemma_consume_props(orders, from + 1, remaining);
        } else if remaining == 0 {
            lemma_consume_props(orders, from + 1, 0);
            assert(af == seq![o] + level_after(orders, from + 1, 0));
            assert forall|k: int| 0 <= k < af.len() implies order_shrunk_from(
                orders,
                from,
                #[trigger] af[k],
            ) by {
                if k == 0 {
                    assert(af[0] == o);
                    assert(o == (Order { size: o.size, ..orders[from] }) && 0 < o.size
                        <= orders[from].size);
                } else {
                    let sub = level_after(orders, from + 1, 0);
                    assert(af[k] == sub[k - 1]);
                    assert(order_shrunk_from(orders, from + 1, sub[k - 1]));
                    let j = choose|j: int|
                        from + 1 <= j < orders.len() && sub[k - 1] == (Order {
                            size: sub[k - 1].size,
                            ..orders[j]
                        }) && 0 < sub[k - 1].size <= #[trigger] orders[j].size;
                    assert(af[k] == (Order { size: af[k].size, ..orders[j] }) && 0 < af[k].size
                        <= orders[j].size);
                }
            }
        } else {
            let ts = min_int(remaining, o.size as int);
            lemma_consume_props(orders, from + 1, remaining - ts);
            let fs1 = level_fills(orders, from + 1, remaining - ts);
            let af1 = level_after(orders, from + 1, remaining - ts);
            assert(fs == seq![Fill { idx: from as usize, size: ts as u64 }] + fs1);
            assert(fills_total(fs, 0) == ts + fills_total(fs1, 0)) by {
                let f = Fill { idx: from as usize, size: ts as u64 };
                lemma_fills_total_shift(seq![f], fs1);
                assert(fills_total(seq![f], 1) == 0);
                assert(fills_total(seq![f], 0) == f.size);
            }
            assert forall|k: int| 0 <= k < fs.len() implies {
                let f = #[trigger] fs[k];
                &&& from <= f.idx < orders.len()
                &&& 0 < f.size <= orders[f.idx as int].size
            } by {
                if k > 0 {
                    assert(fs[k] == fs1[k - 1]);
                }
            }
            assert forall|k1: int, k2: int| 0 <= k1 < k2 < fs.len() implies #[trigger] fs[k1].idx
                < #[trigger] fs[k2].idx by {
                if k1 > 0 {
                    assert(fs[k1] == fs1[k1 - 1] && fs[k2] == fs1[k2 - 1]);
                } else {
                    assert(fs[k2] == fs1[k2 - 1]);
                }
            }
            if o.size as int > ts {
                assert(af == seq![(Order { size: (o.size as int - ts) as u64, ..o })] + af1);
                assert(ts == remaining);
                assert(fills_total(fs1, 0) == 0);
                assert(fills_total(fs, 0) == remaining);
            } else {
                assert(af == af1);
            }
            assert forall|k: int| 0 <= k < af.len() implies order_shrunk_from(
                orders,
                from,
                #[trigger] af[k],
            ) by {
                if o.size as int > ts && k == 0 {
                    let kept = Order { size: (o.size as int - ts) as u64, ..o };
                    assert(af[0] == kept);
                    assert(af[0] == (Order { size: af[0].size, ..orders[from] }) && 0 < af[0].size
                        <= orders[from].size);
                } else {
                    let k1 = if o.size as int > ts {
                        k - 1
                    } else {
                        k
                    };
                    assert(af[k] == af1[k1]);
                    assert(order_shrunk_from(orders, from + 1, af1[k1]));
                    let j = choose|j: int|
                        from + 1 <= j < orders.len() && af1[k1] == (Order {
                            size: af1[k1].size,
                            ..orders[j]
                        }) && 0 < af1[k1].size <= #[trigger] orders[j].size;
                    assert(af[k] == (Order { size: af[k].size, ..orders[j] }) && 0 < af[k].size
                        <= orders[j].size);
                }
            }
        }
    }
}

pub proof fn lemma_fills_total_shift(a: Seq<Fill>, b: Seq<Fill>)
    ensures
        fills_total(a + b, 0) == fills_total(a, 0) + fills_total(b, 0),
    decreases a.len(),
{
    if a.len() == 0 {
        assert(a + b =~= b);
    } else {
        assert((a + b).drop_first() =~= a.drop_first() + b);
        lemma_fills_total_shift(a.drop_first(), b);
        lemma_fills_total_first(a + b);
        lemma_fills_total_first(a);
    }
}

/// Unfolds a nonempty total from the front.
pub proof fn lemma_fills_total_first(fs: Seq<Fill>)
    requires
        fs.len() > 0,
    ensures
        fills_total(fs, 0) == fs[0].size + fills_total(fs.drop_first(), 0),
    decreases fs.len(),
{
    lemma_fills_total_from(fs, 1);
}

pub proof fn lemma_fills_total_from(fs: Seq<Fill>, from: int)
    requires
        1 <= from <= fs.len(),
    ensures
        fills_total(fs, from) == fills_total(fs.drop_first(), from - 1),
    decreases fs.len() - from,
{
    if from < fs.len() {
        lemma_fills_total_from(fs, from + 1);
    }
}

/// Price-time priority within a level: if a later resting order receives any
/// fill, every earlier resting order of positive size was filled completely.
pub proof fn lemma_price_time_priority(orders: Seq<Order>, remaining: int, j: int, k: int)
    requires
        remaining >= 0,
        0 <= j < k < orders.len(),
        orders.len() <= usize::MAX,
        orders[j].size > 0,
        exists|a: int|
            0 <= a < level_fills(orders, 0, remaining).len() && #[trigger] level_fills(
                orders,
                0,
                remaining,
            )[a].idx == k,
    ensures
        exists|b: int|
            0 <= b < level_fills(orders, 0, remaining).len() && #[trigger] level_fills(
                orders,
                0,
                remaining,
            )[b].idx == j && level_fills(orders, 0, remaining)[b].size == orders[j].size,
{
    lemma_ptp_from(orders, 0, remaining, j, k);
}

proof fn lemma_ptp_from(orders: Seq<Order>, from: int, remaining: int, j: int, k: int)
    requires
        remaining >= 0,
        0 <= from <= orders.len(),
        orders.len() <= usize::MAX,
        from <= j < k < orders.len(),
        orders[j].size > 0,
        exists|a: int|
            0 <= a < level_fills(orders, from, remaining).len() && #[trigger] level_fills(
                orders,
                from,
                remaining,
            )[a].idx == k,
    ensures
        exists|b: int|
            0 <= b < level_fills(orders, from, remaining).len() && #[trigger] level_fills(
                orders,
                from,
                remaining,
            )[b].idx == j && level_fills(orders, from, remaining)[b].size == orders[j].size,
    decreases orders.len() - from,
{
    let fs = level_fills(orders, from, remaining);
    assert(from < orders.len());
    if remaining <= 0 {
        assert(false);
    }
    let o = orders[from];
    if o.size == 0 {
        assert(level_fills(orders, from, remaining) == level_fills(orders, from + 1, remaining));
        let a = choose|a: int|
            0 <= a < level_fills(orders, from, remaining).len() && #[trigger] level_fills(
                orders,
                from,
                remaining,
            )[a].idx == k;
        assert(level_fills(orders, from + 1, remaining)[a].idx == k);
        lemma_ptp_from(orders, from + 1, remaining, j, k);
        let b = choose|b: int|
            0 <= b < level_fills(orders, from + 1, remaining).len() && #[trigger] level_fills(
                orders,
                from + 1,
                remaining,
            )[b].idx == j && level_fills(orders, from + 1, remaining)[b].size == orders[j].size;
        assert(level_fills(orders, from, remaining)[b].idx == j && level_fills(
            orders,
            from,
            remaining,
        )[b].size == orders[j].size);
    } else {
        let ts = min_int(remaining, o.size as int);
        let fs1 = level_fills(orders, from + 1, remaining - ts);
        assert(fs == seq![Fill { idx: from as usize, size: ts as u64 }] + fs1);
        if from == j {
            // the fill for a later order exists, so the taker was not
            // exhausted here: this order was matched for its full size
            let a = choose|a: int| 0 <= a < fs.len() && #[trigger] fs[a].idx == k;
            assert(a > 0);
            assert(fs1[a - 1].idx == k);
            if ts < o.size as int {
                assert(remaining - ts == 0);
                lemma_consume_props(orders, from + 1, 0);
                assert(fs1.len() == 0);
                assert(false);
            }
            assert(fs[0].idx == j && fs[0].size == orders[j].size);
        } else {
            let a = choose|a: int| 0 <= a < fs.len() && #[trigger] fs[a].idx == k;
            assert(a > 0);
            assert(fs1[a - 1].idx == k);
            if remaining - ts == 0 {
                lemma_consume_props(orders, from + 1, 0);
                assert(false);
            }
            lemma_ptp_from(orders, from + 1, remaining - ts, j, k);
            let b = choose|b: int|
                0 <= b < fs1.len() && #[trigger] fs1[b].idx == j && fs1[b].size == orders[j].size;
            assert(fs[b + 1].idx == j && fs[b + 1].size == orders[j].size);
        }
    }
}

/// One pass over a level: computes the fills the taker takes, the surviving
/// orders, and the taker's remaining size after the pass.
fn consume_level(orders: &Vec<Order>, remaining0: u64) -> (r: (Vec<Fill>, Vec<Order>, u64))
    ensures
        r.0@ == level_fills(orders@, 0, remaining0 as int),
        r.1@ == level_after(orders@, 0, remaining0 as int),
        r.2 == remaining0 as int - fills_total(level_fills(orders@, 0, remaining0 as int), 0),
{
    let mut fills: Vec<Fill> = Vec::new();
    let mut kept: Vec<Order> = Vec::new();
    let mut rem: u64 = remaining0;
    let mut i: usize = 0;
    while i < orders.len()
        invariant
            0 <= i <= orders@.len(),
            rem <= remaining0,
            level_fills(orders@, 0, remaining0 as int) =~= fills@ + level_fills(
                orders@,
                i as int,
                rem as int,
            ),
            level_after(orders@, 0, remaining0 as int) =~= kept@ + level_after(
                orders@,
                i as int,
                rem as int,
            ),
            rem == remaining0 as int - fills_total(fills@, 0),
        decreases orders@.len() - i,
    {
        let ghost fills0 = fills@;
        let ghost kept0 = kept@;
        let ghost rem0 = rem;
        let o = orders[i];
        if o.size == 0 {
            proof {
                assert(level_fills(orders@, i as int, rem as int) == level_fills(
                    orders@,
                    i + 1,
                    rem as int,
                ));
                assert(level_after(orders@, i as int, rem as int) == level_after(
                    orders@,
                    i + 1,
                    rem as int,
                ));
            }
        } else if rem == 0 {
            kept.push(o);
            proof {
                assert(kept@ =~= kept0 + seq![o]);
                assert(level_after(orders@, i as int, 0) == seq![o] + level_after(
                    orders@,
                    i + 1,
                    0,
                ));
                assert(kept0 + (seq![o] + level_after(orders@, i + 1, 0)) =~= kept@ + level_after(
                    orders@,
                    i + 1,
                    0,
                ));
            }
        } else {
            let ts = if rem < o.size {
                rem
            } else {
                o.size
            };
            fills.push(Fill { idx: i, size: ts });
            proof {
                lemma_fills_total_push(fills0, Fill { idx: i, size: ts }, 0);
            }
            rem = rem - ts;
            if o.size > ts {
                kept.push(Order { size: o.size - ts, ..o });
            }
            proof {
                let f = Fill { idx: i, size: ts };
                assert(ts as int == min_int(rem0 as int, o.size as int));
                assert(level_fills(orders@, i as int, rem0 as int) == seq![f] + level_fills(
                    orders@,
                    i + 1,
                    rem as int,
                ));
                assert(fills@ =~= fills0 + seq![f]);
                assert(fills0 + (seq![f] + level_fills(orders@, i + 1, rem as int)) =~= fills@
                    + level_fills(orders@, i + 1, rem as int));
                if o.size > ts {
                    let ko = Order { size: (o.size - ts) as u64, ..o };
                    assert(level_after(orders@, i as int, rem0 as int) == seq![ko] + level_after(
                        orders@,
                        i + 1,
                        rem as int,
                    ));
                    assert(kept@ =~= kept0 + seq![ko]);
                    assert(kept0 + (seq![ko] + level_after(orders@, i + 1, rem as int)) =~= kept@
                        + level_after(orders@, i + 1, rem as int));
                } else {
                    assert(level_after(orders@, i as int, rem0 as int) == level_after(
                        orders@,
                        i + 1,
                        rem as int,
                    ));
                }
            }
        }
        i = i + 1;
    }
    (fills, kept, rem)
}

/// The position a trader holds after a fill of signed size `delta` at
/// `price` is applied, per the risk rules: reducing or flattening keeps the
/// entry price, leverage, liquidation price and margin and only refreshes
/// size and unrealized profit; opening or increasing recomputes the
/// size-weighted entry price, overwrites leverage and margin with this
/// fill's values, and recomputes the liquidation price for the new net
/// direction. A trader without a position starts from a flat one.
pub open spec fn updated_position_spec(
    cur: Option<Position>,
    delta: int,
    price: u64,
    leverage: u64,
    margin: u64,
    mark: u64,
) -> Position {
    let base = match cur {
        Some(p) => p,
        None => crate::position::new_position_spec(0, price, leverage, margin as i128),
    };
    let ns = base.size as int + delta;
    if abs(ns) < abs(base.size as int) {
        Position {
            size: ns as i128,
            unrealized_pnl: crate::position::pnl_spec(ns, base.entry_price as int, mark as int) as i128,
            ..base
        }
    } else {
        let e = crate::position::weighted_entry_spec(
            base.entry_price as int,
            abs(base.size as int),
            price as int,
            abs(delta),
        );
        Position {
            size: ns as i128,
            entry_price: e as u64,
            leverage,
            liquidation_price: crate::position::liq_price_spec(e, leverage as int, ns > 0) as i128,
            unrealized_pnl: crate::position::pnl_spec(ns, e, mark as int) as i128,
            margin: margin as i128,
        }
    }
}

/// Computes `weighted_entry_spec` on machine integers.
fn weighted_entry(entry: u64, old_size: i128, price: u64, delta: i128) -> (r: u64)
    requires
        entry <= PRICE_CAP,
        price <= PRICE_CAP,
        abs(old_size as int) <= RUN_CAP,
        abs(delta as int) <= SIZE_CAP,
    ensures
        r == crate::position::weighted_entry_spec(
            entry as int,
            abs(old_size as int),
            price as int,
            abs(delta as int),
        ),
        r <= PRICE_CAP,
{
    if old_size == 0 {
        return price;
    }
    let oa: u128 = if old_size >= 0 {
        old_size as u128
    } else {
        (-old_size) as u128
    };
    let da: u128 = if delta >= 0 {
        delta as u128
    } else {
        (-delta) as u128
    };
    proof {
        crate::units::lemma_mul_bound(entry as int, oa as int, PRICE_CAP as int, RUN_CAP as int);
        crate::units::lemma_mul_bound(price as int, da as int, PRICE_CAP as int, SIZE_CAP as int);
        assert((entry as int) * (oa as int) + (price as int) * (da as int) <= (PRICE_CAP as int) * (
        (oa as int) + (da as int))) by (nonlinear_arith)
            requires
                entry <= PRICE_CAP,
                price <= PRICE_CAP,
                oa >= 0,
                da >= 0,
        ;
        crate::units::lemma_div_bound(
            (entry as int) * (oa as int) + (price as int) * (da as int),
            (oa as int) + (da as int),
            PRICE_CAP as int,
        );
    }
    let num: u128 = (entry as u128) * oa + (price as u128) * da;
    let den: u128 = oa + da;
    (num / den) as u64
}

/// Magnitude of a signed machine quantity.
fn abs_i128(x: i128) -> (r: i128)
    requires
        x > i128::MIN,
    ensures
        r == abs(x as int),
{
    if x >= 0 {
        x
    } else {
        -x
    }
}

impl PerpetualOrderBook {
    /// Applies one fill of signed size `delta` at `price` to `trader_id`'s
    /// position, creating the position on a trader's first fill. Only the
    /// position table changes, and only this trader's entry in it.
    fn update_position(
        &mut self,
        trader_id: u64,
        delta: i128,
        price: u64,
        leverage: u64,
        margin: u64,
    )
        requires
            positions_wf(old(self).positions@),
            0 < abs(delta as int) <= SIZE_CAP,
            0 < price <= PRICE_CAP,
            1 <= leverage,
            old(self).mark_price <= PRICE_CAP,
            abs(pos_size_of(old(self).positions@, trader_id)) + abs(delta as int) <= RUN_CAP,
            positions_sized_le(old(self).positions@, RUN_CAP as int),
        ensures
            *final(self) == (PerpetualOrderBook { positions: final(self).positions, ..*old(self) }),
            final(self).positions@ == upsert(
                old(self).positions@,
                trader_id,
                updated_position_spec(
                    find_position(old(self).positions@, trader_id),
                    delta as int,
                    price,
                    leverage,
                    margin,
                    old(self).mark_price,
                ),
            ),
            positions_wf(final(self).positions@),
            pos_size_of(final(self).positions@, trader_id) == pos_size_of(
                old(self).positions@,
                trader_id,
            ) + delta,
            forall|t: u64|
                t != trader_id ==> #[trigger] find_position(final(self).positions@, t)
                    == find_position(old(self).positions@, t),
            forall|q: int|
                #[trigger] positions_sized_le(old(self).positions@, q) && q >= 0
                    ==> positions_sized_le(final(self).positions@, q + abs(delta as int)),
    {
        proof {
            lemma_find_index_props(old(self).positions@, trader_id);
        }
        let idx = find_pos_index(&self.positions, trader_id);
        let base: Position = match idx {
            Some(i) => self.positions[i].position,
            None => Position::new(0, price, leverage, margin as i128),
        };
        let ns: i128 = base.size + delta;
        let new_pos: Position = if abs_i128(ns) < abs_i128(base.size) {
            Position {
                size: ns,
                unrealized_pnl: crate::position::pnl_value(ns, base.entry_price, self.mark_price),
                ..base
            }
        } else {
            let e = weighted_entry(base.entry_price, base.size, price, delta);
            Position {
                size: ns,
                entry_price: e,
                leverage,
                liquidation_price: crate::position::liq_price(e, leverage, ns > 0),
                unrealized_pnl: crate::position::pnl_value(ns, e, self.mark_price),
                margin: margin as i128,
            }
        };
        let entry = PositionEntry { trader_id, position: new_pos };
        match idx {
            Some(i) => {
                self.positions.remove(i);
                self.positions.insert(i, entry);
                proof {
                    assert(self.positions@ =~= old(self).positions@.update(
                        find_index(old(self).positions@, trader_id),
                        entry,
                    ));
                }
            },
            None => {
                self.positions.push(entry);
            },
        }
        proof {
            let es0 = old(self).positions@;
            let es1 = self.positions@;
            let i0 = find_index(es0, trader_id);
            if i0 >= 0 {
                lemma_find_index_at(es1, trader_id, i0);
            } else {
                assert forall|j: int| 0 <= j < es0.len() implies #[trigger] es1[j].trader_id
                    != trader_id by {
                    assert(es1[j] == es0[j]);
                }
                lemma_find_index_at(es1, trader_id, es0.len() as int);
            }
            assert(find_position(es1, trader_id) == Some(new_pos));
            assert forall|t: u64| t != trader_id implies #[trigger] find_position(es1, t)
                == find_position(es0, t) by {
                lemma_find_index_props(es0, t);
                lemma_find_index_props(es1, t);
                let j0 = find_index(es0, t);
                if j0 >= 0 {
                    lemma_find_index_at(es1, t, j0);
                } else {
                    if find_index(es1, t) >= 0 {
                        assert(es1[find_index(es1, t)].trader_id == t);
                        assert(false);
                    }
                }
            }
            assert forall|q: int|
                #[trigger] positions_sized_le(es0, q) && q >= 0 implies positions_sized_le(
                es1,
                q + abs(delta as int),
            ) by {
                assert forall|i: int| 0 <= i < es1.len() implies abs(
                    #[trigger] es1[i].position.size as int,
                ) <= q + abs(delta as int) by {
                    if i0 >= 0 && i == i0 {
                        assert(abs(es0[i0].position.size as int) <= q);
                    } else if i < es0.len() {
                        assert(es1[i] == es0[i]);
                        assert(abs(es0[i].position.size as int) <= q);
                    } else {
                        assert(abs(pos_size_of(es0, trader_id)) == 0);
                    }
                }
            }
        }
    }
}

/// A position with its unrealized profit refreshed at `mark` and everything
/// else unchanged.
pub open spec fn refreshed(p: Position, mark: int) -> Position {
    Position {
        unrealized_pnl: crate::position::pnl_spec(p.size as int, p.entry_price as int, mark) as i128,
        ..p
    }
}

/// The traders liquidated at `mark`, in position-table order.
pub open spec fn liquidated_ids(es: Seq<PositionEntry>, from: int, mark: int) -> Seq<u64>
    decreases es.len() - from,
{
    if from < 0 || from >= es.len() {
        Seq::empty()
    } else {
        let rest = liquidated_ids(es, from + 1, mark);
        if crate::position::should_liquidate_spec(es[from].position, mark) {
            seq![es[from].trader_id] + rest
        } else {
            rest
        }
    }
}

/// The position table after a mark-price move to `mark`: liquidated entries
/// are removed outright, surviving ones keep their order with unrealized
/// profit refreshed.
pub open spec fn surviving(es: Seq<PositionEntry>, from: int, mark: int) -> Seq<PositionEntry>
    decreases es.len() - from,
{
    if from < 0 || from >= es.len() {
        Seq::empty()
    } else {
        let rest = surviving(es, from + 1, mark);
        if crate::position::should_liquidate_spec(es[from].position, mark) {
            rest
        } else {
            seq![
                (PositionEntry {
                    trader_id: es[from].trader_id,
                    position: refreshed(es[from].position, mark),
                }),
            ] + rest
        }
    }
}

/// `e` is the refreshed image of an entry of `es` from index `from` on.
pub open spec fn entry_refreshed_from(es: Seq<PositionEntry>, from: int, mark: int, e: PositionEntry) -> bool {
    exists|j: int|
        from <= j < es.len() && e.trader_id == #[trigger] es[j].trader_id && e.position == refreshed(
            es[j].position,
            mark,
        )
}

/// Survivors of a liquidation pass are refreshed images of distinct original
/// entries, so a well-formed, size-bounded position table stays well formed
/// and size bounded.
pub proof fn lemma_surviving_props(es: Seq<PositionEntry>, from: int, mark: int)
    requires
        0 <= from <= es.len(),
        forall|i: int, j: int|
            0 <= i < j < es.len() ==> #[trigger] es[i].trader_id != #[trigger] es[j].trader_id,
    ensures
        forall|k: int|
            0 <= k < surviving(es, from, mark).len() ==> entry_refreshed_from(
                es,
                from,
                mark,
                #[trigger] surviving(es, from, mark)[k],
            ),
        forall|k1: int, k2: int|
            0 <= k1 < k2 < surviving(es, from, mark).len() ==> #[trigger] surviving(
                es,
                from,
                mark,
            )[k1].trader_id != #[trigger] surviving(es, from, mark)[k2].trader_id,
    decreases es.len() - from,
{
    let sv = surviving(es, from, mark);
    if from >= es.len() {
    } else {
        lemma_surviving_props(es, from + 1, mark);
        let sv1 = surviving(es, from + 1, mark);
        if crate::position::should_liquidate_spec(es[from].position, mark) {
            assert(sv == sv1);
            assert forall|k: int| 0 <= k < sv.len() implies entry_refreshed_from(
                es,
                from,
                mark,
                #[trigger] sv[k],
            ) by {
                assert(entry_refreshed_from(es, from + 1, mark, sv1[k]));
                let j = choose|j: int|
                    from + 1 <= j < es.len() && sv1[k].trader_id == #[trigger] es[j].trader_id
                        && sv1[k].position == refreshed(es[j].position, mark);
                assert(sv[k].trader_id == es[j].trader_id && sv[k].position == refreshed(
                    es[j].position,
                    mark,
                ));
            }
        } else {
            let head = PositionEntry {
                trader_id: es[from].trader_id,
                position: refreshed(es[from].position, mark),
            };
            assert(sv == seq![head] + sv1);
            assert forall|k: int| 0 <= k < sv.len() implies entry_refreshed_from(
                es,
                from,
                mark,
                #[trigger] sv[k],
            ) by {
                if k == 0 {
                    assert(sv[0].trader_id == es[from].trader_id && sv[0].position == refreshed(
                        es[from].position,
                        mark,
                    ));
                } else {
                    assert(sv[k] == sv1[k - 1]);
                    assert(entry_refreshed_from(es, from + 1, mark, sv1[k - 1]));
                    let j = choose|j: int|
                        from + 1 <= j < es.len() && sv1[k - 1].trader_id == #[trigger] es[j].trader_id
                            && sv1[k - 1].position == refreshed(es[j].position, mark);
                    assert(sv[k].trader_id == es[j].trader_id && sv[k].position == refreshed(
                        es[j].position,
                        mark,
                    ));
                }
            }
            assert forall|k1: int, k2: int| 0 <= k1 < k2 < sv.len() implies #[trigger] sv[k1].trader_id
                != #[trigger] sv[k2].trader_id by {
                if k1 == 0 {
                    assert(sv[k2] == sv1[k2 - 1]);
                    assert(entry_refreshed_from(es, from + 1, mark, sv1[k2 - 1]));
                    let j = choose|j: int|
                        from + 1 <= j < es.len() && sv1[k2 - 1].trader_id == #[trigger] es[j].trader_id
                            && sv1[k2 - 1].position == refreshed(es[j].position, mark);
                    assert(es[from].trader_id != es[j].trader_id);
                } else {
                    assert(sv[k1] == sv1[k1 - 1] && sv[k2] == sv1[k2 - 1]);
                }
            }
        }
    }
}

/// The position table after a funding tick debits every margin by
/// `size * mark * rate`, scaled down twice as the machine computes it.
pub open spec fn debited(es: Seq<PositionEntry>, from: int, mark: int, rate: int) -> Seq<PositionEntry>
    decreases es.len() - from,
{
    if from < 0 || from >= es.len() {
        Seq::empty()
    } else {
        seq![
            (PositionEntry {
                trader_id: es[from].trader_id,
                position: (Position {
                    margin: (es[from].position.margin - funding_payment_spec(
                        es[from].position.size as int,
                        mark,
                        rate,
                    )) as i128,
                    ..es[from].position
                }),
            }),
        ] + debited(es, from + 1, mark, rate)
    }
}

/// The funding payment a position owes for one tick: `size * mark * rate`,
/// computed on magnitudes with the two scale divisions the machine performs,
/// signed by the signs of `size` and `rate` (longs pay shorts when the rate
/// is positive).
pub open spec fn funding_payment_spec(size: int, mark: int, rate: int) -> int {
    let mag = (((abs(size) * mark) / (SCALE as int)) * abs(rate)) / (SCALE as int);
    if (size >= 0) == (rate >= 0) {
        mag
    } else {
        -mag
    }
}

/// The funding rate implied by the open interest imbalance:
/// `(long - short) / (long + short) * 0.01`, truncated on magnitudes.
pub open spec fn funding_rate_spec(tl: int, ts: int) -> int {
    if tl >= ts {
        ((tl - ts) * (SCALE as int)) / ((tl + ts) * 100)
    } else {
        -(((ts - tl) * (SCALE as int)) / ((tl + ts) * 100))
    }
}

/// Combined size of all long positions, from index `from` on.
pub open spec fn total_long(es: Seq<PositionEntry>, from: int) -> int
    decreases es.len() - from,
{
    if from < 0 || from >= es.len() {
        0
    } else {
        (if es[from].position.size > 0 {
            es[from].position.size as int
        } else {
            0
        }) + total_long(es, from + 1)
    }
}

/// Combined magnitude of all short positions, from index `from` on.
pub open spec fn total_short(es: Seq<PositionEntry>, from: int) -> int
    decreases es.len() - from,
{
    if from < 0 || from >= es.len() {
        0
    } else {
        (if es[from].position.size > 0 {
            0
        } else {
            -(es[from].position.size as int)
        }) + total_short(es, from + 1)
    }
}

pub proof fn lemma_totals_nonneg(es: Seq<PositionEntry>, from: int)
    ensures
        total_long(es, from) >= 0,
        total_short(es, from) >= 0,
    decreases es.len() - from,
{
    if 0 <= from && from < es.len() {
        lemma_totals_nonneg(es, from + 1);
    }
}

/// A zero open interest on both sides means every position is flat.
pub proof fn lemma_totals_zero(es: Seq<PositionEntry>, from: int)
    requires
        0 <= from <= es.len(),
        total_long(es, from) == 0,
        total_short(es, from) == 0,
    ensures
        forall|j: int| from <= j < es.len() ==> #[trigger] es[j].position.size == 0,
    decreases es.len() - from,
{
    if from < es.len() {
        lemma_totals_nonneg(es, from + 1);
        lemma_totals_zero(es, from + 1);
    }
}

/// A funding tick whose payments all vanish leaves the table unchanged.
pub proof fn lemma_debited_identity(es: Seq<PositionEntry>, from: int, mark: int, rate: int)
    requires
        0 <= from <= es.len(),
        forall|j: int|
            from <= j < es.len() ==> funding_payment_spec(
                #[trigger] es[j].position.size as int,
                mark,
                rate,
            ) == 0,
    ensures
        debited(es, from, mark, rate) =~= es.skip(from),
    decreases es.len() - from,
{
    if from < es.len() {
        lemma_debited_identity(es, from + 1, mark, rate);
        assert(es.skip(from) =~= seq![es[from]] + es.skip(from + 1));
        assert(es[from] == (PositionEntry {
            trader_id: es[from].trader_id,
            position: (Position {
                margin: (es[from].position.margin - 0) as i128,
                ..es[from].position
            }),
        }));
    }
}

impl PerpetualOrderBook {
    /// Moves the mark price, refreshes every surviving position's unrealized
    /// profit at the new mark, removes every liquidatable position outright
    /// (a long at or below its liquidation price, a short at or above it),
    /// and returns the liquidated traders in table order. Liquidation
    /// forfeits the position; settlement is the caller's business.
    pub fn update_mark_price(&mut self, new_mark_price: u64) -> (r: Vec<u64>)
        requires
            old(self).wf(),
            new_mark_price <= PRICE_CAP,
            positions_sized_le(old(self).positions@, POS_CAP as int),
        ensures
            *final(self) == (PerpetualOrderBook {
                mark_price: new_mark_price,
                positions: final(self).positions,
                ..*old(self)
            }),
            r@ == liquidated_ids(old(self).positions@, 0, new_mark_price as int),
            final(self).positions@ == surviving(old(self).positions@, 0, new_mark_price as int),
            final(self).wf(),
            positions_sized_le(final(self).positions@, POS_CAP as int),
    {
        self.mark_price = new_mark_price;
        let ghost es = self.positions@;
        let mut ids: Vec<u64> = Vec::new();
        let mut kept: Vec<PositionEntry> = Vec::new();
        let mut i: usize = 0;
        while i < self.positions.len()
            invariant
                0 <= i <= self.positions@.len(),
                self.positions@ == es,
                self.mark_price == new_mark_price,
                new_mark_price <= PRICE_CAP,
                positions_wf(es),
                positions_sized_le(es, POS_CAP as int),
                liquidated_ids(es, 0, new_mark_price as int) =~= ids@ + liquidated_ids(
                    es,
                    i as int,
                    new_mark_price as int,
                ),
                surviving(es, 0, new_mark_price as int) =~= kept@ + surviving(
                    es,
                    i as int,
                    new_mark_price as int,
                ),
            decreases self.positions@.len() - i,
        {
            let ghost ids0 = ids@;
            let ghost kept0 = kept@;
            let e = self.positions[i];
            let mut p = e.position;
            p.update_unrealized_pnl(new_mark_price);
            if p.should_liquidate(new_mark_price) {
                ids.push(e.trader_id);
                proof {
                    assert(crate::position::should_liquidate_spec(es[i as int].position, new_mark_price as int));
                    assert(liquidated_ids(es, i as int, new_mark_price as int)
                        == seq![es[i as int].trader_id] + liquidated_ids(
                        es,
                        i + 1,
                        new_mark_price as int,
                    ));
                    assert(ids@ =~= ids0 + seq![e.trader_id]);
                    assert(ids0 + (seq![e.trader_id] + liquidated_ids(es, i + 1, new_mark_price as int))
                        =~= ids@ + liquidated_ids(es, i + 1, new_mark_price as int));
                    assert(surviving(es, i as int, new_mark_price as int) == surviving(
                        es,
                        i + 1,
                        new_mark_price as int,
                    ));
                }
            } else {
                kept.push(PositionEntry { trader_id: e.trader_id, position: p });
                proof {
                    let head = PositionEntry {
                        trader_id: es[i as int].trader_id,
                        position: refreshed(es[i as int].position, new_mark_price as int),
                    };
                    assert(p == refreshed(es[i as int].position, new_mark_price as int));
                    assert(surviving(es, i as int, new_mark_price as int) == seq![head] + surviving(
                        es,
                        i + 1,
                        new_mark_price as int,
                    ));
                    assert(kept@ =~= kept0 + seq![head]);
                    assert(kept0 + (seq![head] + surviving(es, i + 1, new_mark_price as int)) =~= kept@
                        + surviving(es, i + 1, new_mark_price as int));
                    assert(liquidated_ids(es, i as int, new_mark_price as int) == liquidated_ids(
                        es,
                        i + 1,
                        new_mark_price as int,
                    ));
                }
            }
            i = i + 1;
        }
        self.positions = kept;
        proof {
            lemma_surviving_props(es, 0, new_mark_price as int);
            let sv = surviving(es, 0, new_mark_price as int);
            assert forall|k: int| 0 <= k < sv.len() implies {
                &&& #[trigger] sv[k].position.entry_price <= PRICE_CAP
                &&& sv[k].position.leverage >= 1
                &&& abs(sv[k].position.size as int) <= POS_CAP as int
            } by {
                assert(entry_refreshed_from(es, 0, new_mark_price as int, sv[k]));
                let j = choose|j: int|
                    0 <= j < es.len() && sv[k].trader_id == #[trigger] es[j].trader_id
                        && sv[k].position == refreshed(es[j].position, new_mark_price as int);
                assert(es[j].position.entry_price <= PRICE_CAP);
                assert(abs(es[j].position.size as int) <= POS_CAP as int);
            }
        }
        ids
    }

    /// Recomputes the funding rate from the open-interest imbalance —
    /// `(long - short) / (long + short) * 0.01`, left unchanged when there is
    /// no open interest — and then debits every position's margin by
    /// `size * mark * rate`. When longs and shorts balance exactly, the
    /// funding tick changes no position at all.
    pub fn update_funding_rate(&mut self)
        requires
            old(self).wf(),
            positions_sized_le(old(self).positions@, POS_CAP as int),
            margins_le(old(self).positions@, MARGIN_CAP as int),
            total_long(old(self).positions@, 0) + total_short(old(self).positions@, 0)
                <= TOTAL_CAP as int,
        ensures
            *final(self) == (PerpetualOrderBook {
                funding_rate: final(self).funding_rate,
                positions: final(self).positions,
                ..*old(self)
            }),
            final(self).funding_rate as int == (if total_long(old(self).positions@, 0) + total_short(
                old(self).positions@,
                0,
            ) > 0 {
                funding_rate_spec(
                    total_long(old(self).positions@, 0),
                    total_short(old(self).positions@, 0),
                )
            } else {
                old(self).funding_rate as int
            }),
            final(self).positions@ == debited(
                old(self).positions@,
                0,
                old(self).mark_price as int,
                final(self).funding_rate as int,
            ),
            total_long(old(self).positions@, 0) == total_short(old(self).positions@, 0)
                ==> final(self).positions@ == old(self).positions@,
            final(self).wf(),
            positions_sized_le(final(self).positions@, POS_CAP as int),
    {
        let ghost es = self.positions@;
        let mut tl: i128 = 0;
        let mut ts: i128 = 0;
        let mut i: usize = 0;
        proof {
            lemma_totals_nonneg(es, 0);
        }
        while i < self.positions.len()
            invariant
                0 <= i <= self.positions@.len(),
                self.positions@ == es,
                positions_sized_le(es, POS_CAP as int),
                total_long(es, 0) + total_short(es, 0) <= TOTAL_CAP as int,
                tl + total_long(es, i as int) == total_long(es, 0),
                ts + total_short(es, i as int) == total_short(es, 0),
                0 <= tl,
                0 <= ts,
            decreases self.positions@.len() - i,
        {
            proof {
                lemma_totals_nonneg(es, i + 1);
                lemma_totals_nonneg(es, i as int);
            }
            let sz = self.positions[i].position.size;
            if sz > 0 {
                tl = tl + sz;
            } else {
                ts = ts - sz;
            }
            i = i + 1;
        }
        proof {
            assert(total_long(es, es.len() as int) == 0);
            assert(total_short(es, es.len() as int) == 0);
        }
        if tl + ts > 0 {
            let (num, neg): (u128, bool) = if tl >= ts {
                ((tl - ts) as u128, false)
            } else {
                ((ts - tl) as u128, true)
            };
            proof {
                crate::units::lemma_mul_bound(num as int, SCALE as int, TOTAL_CAP as int, SCALE as int);
                assert(num as int * (SCALE as int) <= ((tl + ts) as int * 100) * ((SCALE as int)
                    / 100)) by (nonlinear_arith)
                    requires
                        num as int <= tl + ts,
                        0 < tl + ts,
                        num >= 0,
                ;
                crate::units::lemma_div_bound(
                    num as int * (SCALE as int),
                    (tl + ts) as int * 100,
                    (SCALE as int) / 100,
                );
                crate::units::lemma_mul_bound(
                    (tl + ts) as int,
                    100,
                    TOTAL_CAP as int,
                    100,
                );
            }
            let scaled: u128 = num * (SCALE as u128);
            let den: u128 = ((tl + ts) as u128) * 100;
            let mag: u128 = scaled / den;
            let rate: i64 = if neg {
                -(mag as i64)
            } else {
                mag as i64
            };
            self.funding_rate = rate;
        }
        let ghost rate_now = self.funding_rate as int;
        let ghost markp = self.mark_price as int;
        let mut out: Vec<PositionEntry> = Vec::new();
        let mut k: usize = 0;
        while k < self.positions.len()
            invariant
                0 <= k <= self.positions@.len(),
                self.positions@ == es,
                self.mark_price as int == markp,
                self.funding_rate as int == rate_now,
                self.mark_price <= PRICE_CAP,
                abs(rate_now) <= SCALE / 100,
                positions_wf(es),
                positions_sized_le(es, POS_CAP as int),
                margins_le(es, MARGIN_CAP as int),
                debited(es, 0, markp, rate_now) =~= out@ + debited(es, k as int, markp, rate_now),
                out@.len() == k,
                forall|j: int|
                    0 <= j < k ==> #[trigger] out@[j] == (PositionEntry {
                        trader_id: es[j].trader_id,
                        position: (Position {
                            margin: (es[j].position.margin - funding_payment_spec(
                                es[j].position.size as int,
                                markp,
                                rate_now,
                            )) as i128,
                            ..es[j].position
                        }),
                    }),
            decreases self.positions@.len() - k,
        {
            let ghost out0 = out@;
            let e = self.positions[k];
            let pay = funding_payment(e.position.size, self.mark_price, self.funding_rate);
            let np = Position { margin: e.position.margin - pay, ..e.position };
            out.push(PositionEntry { trader_id: e.trader_id, position: np });
            proof {
                let head = PositionEntry {
                    trader_id: es[k as int].trader_id,
                    position: (Position {
                        margin: (es[k as int].position.margin - funding_payment_spec(
                            es[k as int].position.size as int,
                            markp,
                            rate_now,
                        )) as i128,
                        ..es[k as int].position
                    }),
                };
                assert(debited(es, k as int, markp, rate_now) == seq![head] + debited(
                    es,
                    k + 1,
                    markp,
                    rate_now,
                ));
                assert(out@ =~= out0 + seq![head]);
                assert(out0 + (seq![head] + debited(es, k + 1, markp, rate_now)) =~= out@ + debited(
                    es,
                    k + 1,
                    markp,
                    rate_now,
                ));
            }
            k = k + 1;
        }
        self.positions = out;
        proof {
            if total_long(es, 0) == total_short(es, 0) {
                if total_long(es, 0) + total_short(es, 0) > 0 {
                    assert(rate_now == funding_rate_spec(total_long(es, 0), total_short(es, 0)));
                    assert(rate_now == 0);
                } else {
                    lemma_totals_nonneg(es, 0);
                    lemma_totals_zero(es, 0);
                }
                lemma_payments_vanish(es, markp, rate_now);
                lemma_debited_identity(es, 0, markp, rate_now);
                assert(es.skip(0) =~= es);
            }
        }
    }
}

/// A funding payment vanishes for a zero rate, and for a flat position
/// whatever the rate.
proof fn lemma_payments_vanish(es: Seq<PositionEntry>, mark: int, rate: int)
    requires
        mark >= 0,
        rate == 0 || forall|j: int| 0 <= j < es.len() ==> #[trigger] es[j].position.size == 0,
    ensures
        forall|j: int|
            0 <= j < es.len() ==> funding_payment_spec(
                #[trigger] es[j].position.size as int,
                mark,
                rate,
            ) == 0,
{
    assert forall|j: int| 0 <= j < es.len() implies funding_payment_spec(
        #[trigger] es[j].position.size as int,
        mark,
        rate,
    ) == 0 by {
        let s = es[j].position.size as int;
        let t = (abs(s) * mark) / (SCALE as int);
        if rate == 0 {
            assert(t * abs(rate) == 0) by (nonlinear_arith)
                requires
                    rate == 0,
            ;
        } else {
            assert(es[j].position.size == 0);
            assert(abs(s) * mark == 0) by (nonlinear_arith)
                requires
                    abs(s) == 0,
            ;
            assert(t * abs(rate) == 0) by (nonlinear_arith)
                requires
                    t == 0,
            ;
        }
        assert((t * abs(rate)) / (SCALE as int) == 0);
    }
}

/// Computes `funding_payment_spec` on machine integers.
fn funding_payment(size: i128, mark: u64, rate: i64) -> (r: i128)
    requires
        abs(size as int) <= POS_CAP as int,
        mark <= PRICE_CAP,
        abs(rate as int) <= SCALE / 100,
    ensures
        r as int == funding_payment_spec(size as int, mark as int, rate as int),
        abs(r as int) <= 10_000_000_000_000_000_000_000_000_000,
{
    let sa: u128 = if size >= 0 {
        size as u128
    } else {
        (-size) as u128
    };
    let ra: u128 = if rate >= 0 {
        rate as u128
    } else {
        (-rate) as u128
    };
    proof {
        crate::units::lemma_mul_bound(sa as int, mark as int, POS_CAP as int, PRICE_CAP as int);
        crate::units::lemma_div_le((sa as int) * (mark as int), SCALE as int);
        crate::units::lemma_mul_bound(
            ((sa as int) * (mark as int)) / (SCALE as int),
            ra as int,
            (POS_CAP as int) * (PRICE_CAP as int) / (SCALE as int),
            (SCALE / 100) as int,
        );
        crate::units::lemma_div_le(
            (((sa as int) * (mark as int)) / (SCALE as int)) * (ra as int),
            SCALE as int,
        );
        crate::units::lemma_div_bound(
            (((sa as int) * (mark as int)) / (SCALE as int)) * (ra as int),
            SCALE as int,
            10_000_000_000_000_000_000_000_000_000,
        );
    }
    let t1: u128 = (sa * (mark as u128)) / (SCALE as u128);
    let t2: u128 = (t1 * ra) / (SCALE as u128);
    let mag: i128 = t2 as i128;
    if (size >= 0) == (rate >= 0) {
        mag
    } else {
        -mag
    }
}

/// Margin an order must post: `price * size / leverage`, truncated.
pub open spec fn required_margin_spec(price: int, size: int, leverage: int) -> int {
    (price * size) / leverage
}

/// Which validation error, if any, rejects an order before any state is
/// touched: a non-positive price or size is invalid (the engine reports both
/// as `InvalidPrice`); leverage must not exceed the instrument's cap; the
/// required margin `price * size / leverage` must reach the instrument
/// minimum and not exceed the caller's available margin, both bounds
/// inclusive. A zero leverage makes the required margin unbounded, so it is
/// rejected as insufficient margin.
pub open spec fn validation_error(pre: PerpetualOrderBook, order: Order, margin: u64) -> Option<
    OrderError,
> {
    if order.price == 0 || order.size == 0 {
        Some(OrderError::InvalidPrice)
    } else if order.leverage > pre.max_leverage {
        Some(OrderError::ExceedsMaxLeverage)
    } else if order.leverage == 0 {
        Some(OrderError::InsufficientMargin)
    } else if required_margin_spec(order.price as int, order.size as int, order.leverage as int)
        < pre.min_margin as int || required_margin_spec(
        order.price as int,
        order.size as int,
        order.leverage as int,
    ) > margin as int {
        Some(OrderError::InsufficientMargin)
    } else {
        None
    }
}

/// Total size of a list of trades, from index `from` on.
pub open spec fn trades_total(tr: Seq<Trade>, from: int) -> int
    decreases tr.len() - from,
{
    if from < 0 || from >= tr.len() {
        0
    } else {
        tr[from].size + trades_total(tr, from + 1)
    }
}

pub proof fn lemma_fills_total_nonneg(fs: Seq<Fill>, from: int)
    ensures
        fills_total(fs, from) >= 0,
    decreases fs.len() - from,
{
    if 0 <= from && from < fs.len() {
        lemma_fills_total_nonneg(fs, from + 1);
    }
}

pub proof fn lemma_trades_total_push(tr: Seq<Trade>, t: Trade, from: int)
    requires
        0 <= from <= tr.len(),
    ensures
        trades_total(tr.push(t), from) == trades_total(tr, from) + t.size,
    decreases tr.len() - from,
{
    if from < tr.len() {
        lemma_trades_total_push(tr, t, from + 1);
    } else {
        assert(trades_total(tr.push(t), from + 1) == 0);
    }
}

/// Every trade of one matching call carries the taker's assigned identifier,
/// consecutive trade identifiers, a positive size, the taker's timestamp,
/// and executes at the price of some opposing level of the book as it stood,
/// never beyond a limit taker's limit price.
pub open spec fn trades_ok(pre: PerpetualOrderBook, order: Order, oid: int, tr: Seq<Trade>) -> bool {
    forall|k: int|
        0 <= k < tr.len() ==> {
            &&& (#[trigger] tr[k]).taker_order_id == oid
            &&& tr[k].id == oid + 1 + k
            &&& 0 < tr[k].size
            &&& tr[k].timestamp == order.timestamp
            &&& has_price(pre.opposing(order.side), tr[k].price)
            &&& (order.order_type is Limit ==> (if order.side is Long {
                tr[k].price <= order.price
            } else {
                tr[k].price >= order.price
            }))
        }
}

/// Some order resting on this side belongs to trader `t`.
pub open spec fn trader_resting(levels: Seq<Level>, t: u64) -> bool {
    exists|j: int, k: int|
        0 <= j < levels.len() && 0 <= k < levels[j].orders@.len() && (#[trigger] levels[j].orders@[k]).trader_id
            == t
}

/// Every trader resting on `cur` was already resting on `pre`: matching
/// consumes liquidity and never invents resting orders.
pub open spec fn traders_carried(cur: Seq<Level>, pre: Seq<Level>) -> bool {
    forall|j: int, k: int|
        0 <= j < cur.len() && 0 <= k < cur[j].orders@.len() ==> trader_resting(
            pre,
            (#[trigger] cur[j].orders@[k]).trader_id,
        )
}

/// `post` is `pre` with order `o` appended at the level of canonical price
/// `price` — at the end of the existing level, preserving time priority, or
/// as a fresh level appended to the side.
pub open spec fn residual_appended(pre: Seq<Level>, post: Seq<Level>, price: u64, o: Order) -> bool {
    if has_price(pre, price) {
        &&& post.len() == pre.len()
        &&& forall|j: int| 0 <= j < pre.len() ==> #[trigger] post[j].price == pre[j].price
        &&& forall|j: int|
            0 <= j < pre.len() && pre[j].price != price ==> #[trigger] post[j].orders@
                == pre[j].orders@
        &&& forall|j: int|
            0 <= j < pre.len() && pre[j].price == price ==> #[trigger] post[j].orders@
                == pre[j].orders@.push(o)
    } else {
        &&& post.len() == pre.len() + 1
        &&& forall|j: int| 0 <= j < pre.len() ==> #[trigger] post[j] == pre[j]
        &&& post[pre.len() as int].price == price
        &&& post[pre.len() as int].orders@ == seq![o]
    }
}

/// A price level as the specification sees it: the canonical price and the
/// resting orders in time priority.
pub struct LevelModel {
    pub price: u64,
    pub orders: Seq<Order>,
}

/// One side of the book as the specification sees it.
pub open spec fn side_model(levels: Seq<Level>) -> Seq<LevelModel> {
    Seq::new(
        levels.len(),
        |i: int| LevelModel { price: levels[i].price, orders: levels[i].orders@ },
    )
}

/// What one whole matching call computes: the trades it emits, the opposing
/// side it leaves behind, and the position table it leaves behind.
pub struct MatchResult {
    pub trades: Seq<Trade>,
    pub side: Seq<LevelModel>,
    pub positions: Seq<PositionEntry>,
}

/// Index of the numerically best-priced level: the lowest price when
/// `lowest` (the asks, for a long taker), else the highest (the bids); the
/// earliest such level on a tie, though prices are distinct on a well-formed
/// side.
pub open spec fn best_index(side: Seq<LevelModel>, lowest: bool) -> int
    decreases side.len(),
{
    if side.len() <= 1 {
        0
    } else {
        let r = 1 + best_index(side.drop_first(), lowest);
        if lowest && side[0].price <= side[r].price || !lowest && side[0].price >= side[r].price {
            0
        } else {
            r
        }
    }
}

pub proof fn lemma_best_index_props(side: Seq<LevelModel>, lowest: bool)
    requires
        side.len() > 0,
    ensures
        0 <= best_index(side, lowest) < side.len(),
        forall|j: int|
            0 <= j < side.len() ==> (if lowest {
                side[best_index(side, lowest)].price <= #[trigger] side[j].price
            } else {
                side[best_index(side, lowest)].price >= #[trigger] side[j].price
            }),
    decreases side.len(),
{
    if side.len() > 1 {
        lemma_best_index_props(side.drop_first(), lowest);
        let b = best_index(side, lowest);
        assert forall|j: int| 0 <= j < side.len() implies (if lowest {
            side[b].price <= #[trigger] side[j].price
        } else {
            side[b].price >= #[trigger] side[j].price
        }) by {
            if j > 0 {
                assert(side.drop_first()[j - 1] == side[j]);
            }
        }
    }
}

/// On a well-formed side (distinct prices), the index the matching loop
/// picks — any index of best price — is exactly `best_index`.
pub proof fn lemma_best_matches(levels: Seq<Level>, li: int, lowest: bool)
    requires
        side_wf(levels),
        0 <= li < levels.len(),
        forall|j: int|
            0 <= j < levels.len() ==> (if lowest {
                levels[li].price <= #[trigger] levels[j].price
            } else {
                levels[li].price >= #[trigger] levels[j].price
            }),
    ensures
        best_index(side_model(levels), lowest) == li,
{
    let s = side_model(levels);
    lemma_best_index_props(s, lowest);
    let b = best_index(s, lowest);
    assert(s[b].price == levels[b].price);
    assert(s[li].price == levels[li].price);
    if b != li {
        assert(levels[b].price != levels[li].price);
        assert(false);
    }
}

pub proof fn lemma_side_model_remove(levels: Seq<Level>, i: int)
    requires
        0 <= i < levels.len(),
    ensures
        side_model(levels.remove(i)) == side_model(levels).remove(i),
{
    assert(side_model(levels.remove(i)) =~= side_model(levels).remove(i));
}

/// The trades one level pass emits from fill `k` on, numbered consecutively
/// after `tcount` earlier trades of the same call: one per fill, at the
/// level's price, against the consumed resting order's identifier.
pub open spec fn fills_to_trades(
    fills: Seq<Fill>,
    k: int,
    lvl_orders: Seq<Order>,
    price: u64,
    order: Order,
    oid: u64,
    tcount: int,
) -> Seq<Trade>
    decreases fills.len() - k,
{
    if k < 0 || k >= fills.len() {
        Seq::empty()
    } else {
        seq![
            (Trade {
                id: (oid + 1 + tcount + k) as u64,
                maker_order_id: lvl_orders[fills[k].idx as int].id,
                taker_order_id: oid,
                price: price,
                size: fills[k].size,
                timestamp: order.timestamp,
            }),
        ] + fills_to_trades(fills, k + 1, lvl_orders, price, order, oid, tcount)
    }
}

/// The position table after the fills of one level pass, from fill `k` on:
/// each fill updates the taker with its signed size and then the consumed
/// order's maker with the opposite sign, the maker with its own leverage but
/// the caller-supplied available margin for both.
pub open spec fn apply_fills(
    positions: Seq<PositionEntry>,
    fills: Seq<Fill>,
    k: int,
    lvl_orders: Seq<Order>,
    price: u64,
    order: Order,
    margin: u64,
    mark: u64,
) -> Seq<PositionEntry>
    decreases fills.len() - k,
{
    if k < 0 || k >= fills.len() {
        positions
    } else {
        let f = fills[k];
        let maker = lvl_orders[f.idx as int];
        let d = if order.side is Long {
            f.size as int
        } else {
            -(f.size as int)
        };
        let p1 = upsert(
            positions,
            order.trader_id,
            updated_position_spec(
                find_position(positions, order.trader_id),
                d,
                price,
                order.leverage,
                margin,
                mark,
            ),
        );
        let p2 = upsert(
            p1,
            maker.trader_id,
            updated_position_spec(
                find_position(p1, maker.trader_id),
                -d,
                price,
                maker.leverage,
                margin,
                mark,
            ),
        );
        apply_fills(p2, fills, k + 1, lvl_orders, price, order, margin, mark)
    }
}

/// Price-time-priority matching as one function of the book's state: while
/// the taker has size left, consume the numerically best opposing level —
/// stopping when a limit taker's bound is crossed — taking its fills in
/// insertion order (`level_fills`), emitting their trades, updating both
/// parties' positions per fill, and committing the level's survivors
/// (`level_after`), with the level removed when none survive. A level that
/// keeps a survivor ends the match: the taker was exhausted there.
pub open spec fn match_rec(
    side: Seq<LevelModel>,
    positions: Seq<PositionEntry>,
    order: Order,
    margin: u64,
    oid: u64,
    tcount: int,
    remaining: int,
    mark: u64,
) -> MatchResult
    decreases side.len(),
{
    if remaining <= 0 || side.len() == 0 {
        MatchResult { trades: Seq::empty(), side, positions }
    } else {
        let bi = best_index(side, order.side is Long);
        let b = if 0 <= bi && bi < side.len() {
            bi
        } else {
            0
        };
        let lvl = side[b];
        let stop = order.order_type is Limit && (if order.side is Long {
            lvl.price > order.price
        } else {
            lvl.price < order.price
        });
        if stop {
            MatchResult { trades: Seq::empty(), side, positions }
        } else {
            let fills = level_fills(lvl.orders, 0, remaining);
            let after = level_after(lvl.orders, 0, remaining);
            let trades_here = fills_to_trades(fills, 0, lvl.orders, lvl.price, order, oid, tcount);
            let positions_here = apply_fills(
                positions,
                fills,
                0,
                lvl.orders,
                lvl.price,
                order,
                margin,
                mark,
            );
            if after.len() == 0 {
                let rest = match_rec(
                    side.remove(b),
                    positions_here,
                    order,
                    margin,
                    oid,
                    tcount + fills.len(),
                    remaining - fills_total(fills, 0),
                    mark,
                );
                MatchResult {
                    trades: trades_here + rest.trades,
                    side: rest.side,
                    positions: rest.positions,
                }
            } else {
                MatchResult {
                    trades: trades_here,
                    side: side.update(b, (LevelModel { price: lvl.price, orders: after })),
                    positions: positions_here,
                }
            }
        }
    }
}

proof fn lemma_fills_to_trades_len(
    fills: Seq<Fill>,
    k: int,
    lvl_orders: Seq<Order>,
    price: u64,
    order: Order,
    oid: u64,
    tcount: int,
)
    requires
        0 <= k <= fills.len(),
    ensures
        fills_to_trades(fills, k, lvl_orders, price, order, oid, tcount).len() == fills.len() - k,
    decreases fills.len() - k,
{
    if k < fills.len() {
        lemma_fills_to_trades_len(fills, k + 1, lvl_orders, price, order, oid, tcount);
    }
}

/// One pass of the matching loop — consuming the best level `li`, emitting
/// its trades, applying its fills to the positions, and committing the
/// survivors — advances `match_rec` by exactly one step: what remains to be
/// matched from the new state continues what the whole match computes.
proof fn lemma_match_step(
    opp_entry: Seq<Level>,
    opp_after: Seq<Level>,
    pos_entry: Seq<PositionEntry>,
    pos_after: Seq<PositionEntry>,
    trades_entry: Seq<Trade>,
    trades_after: Seq<Trade>,
    order: Order,
    margin: u64,
    oid: u64,
    tc_entry: int,
    rem_entry: u64,
    rem_after: u64,
    li: int,
    level_price: u64,
    lvl_orders: Seq<Order>,
    kept: Seq<Order>,
    mark: u64,
)
    requires
        0 <= li < opp_entry.len(),
        opp_entry[li].price == level_price,
        opp_entry[li].orders@ == lvl_orders,
        best_index(side_model(opp_entry), order.side is Long) == li,
        !(order.order_type is Limit && (if order.side is Long {
            level_price > order.price
        } else {
            level_price < order.price
        })),
        0 < rem_entry,
        kept == level_after(lvl_orders, 0, rem_entry as int),
        rem_after as int == rem_entry as int - fills_total(
            level_fills(lvl_orders, 0, rem_entry as int),
            0,
        ),
        trades_after == trades_entry + fills_to_trades(
            level_fills(lvl_orders, 0, rem_entry as int),
            0,
            lvl_orders,
            level_price,
            order,
            oid,
            tc_entry,
        ),
        tc_entry == trades_entry.len(),
        pos_after == apply_fills(
            pos_entry,
            level_fills(lvl_orders, 0, rem_entry as int),
            0,
            lvl_orders,
            level_price,
            order,
            margin,
            mark,
        ),
        kept.len() == 0 ==> opp_after == opp_entry.remove(li),
        kept.len() > 0 ==> {
            &&& opp_after.len() == opp_entry.len()
            &&& opp_after[li].price == level_price
            &&& opp_after[li].orders@ == kept
            &&& forall|j: int|
                0 <= j < opp_after.len() && j != li ==> #[trigger] opp_after[j] == opp_entry[j]
        },
        kept.len() > 0 ==> rem_after == 0,
    ensures
        ({
            let restm_entry = match_rec(
                side_model(opp_entry),
                pos_entry,
                order,
                margin,
                oid,
                tc_entry,
                rem_entry as int,
                mark,
            );
            let restm_new = match_rec(
                side_model(opp_after),
                pos_after,
                order,
                margin,
                oid,
                trades_after.len() as int,
                rem_after as int,
                mark,
            );
            &&& trades_entry + restm_entry.trades == trades_after + restm_new.trades
            &&& restm_entry.side == restm_new.side
            &&& restm_entry.positions == restm_new.positions
        }),
{
    let s_entry = side_model(opp_entry);
    let fillss = level_fills(lvl_orders, 0, rem_entry as int);
    let tradess = fills_to_trades(fillss, 0, lvl_orders, level_price, order, oid, tc_entry);
    let restm_entry = match_rec(
        s_entry,
        pos_entry,
        order,
        margin,
        oid,
        tc_entry,
        rem_entry as int,
        mark,
    );
    lemma_fills_to_trades_len(fillss, 0, lvl_orders, level_price, order, oid, tc_entry);
    assert(trades_after.len() as int == tc_entry + fillss.len());
    assert(s_entry[li].orders == lvl_orders);
    if kept.len() == 0 {
        let restm_next = match_rec(
            s_entry.remove(li),
            pos_after,
            order,
            margin,
            oid,
            tc_entry + fillss.len(),
            rem_entry as int - fills_total(fillss, 0),
            mark,
        );
        assert(restm_entry == (MatchResult {
            trades: tradess + restm_next.trades,
            side: restm_next.side,
            positions: restm_next.positions,
        }));
        lemma_side_model_remove(opp_entry, li);
        assert(side_model(opp_after) == s_entry.remove(li));
        assert((trades_entry + tradess) + restm_next.trades =~= trades_entry + (tradess
            + restm_next.trades));
    } else {
        let lvlnew = LevelModel { price: level_price, orders: kept };
        assert(restm_entry == (MatchResult {
            trades: tradess,
            side: s_entry.update(li, lvlnew),
            positions: pos_after,
        }));
        assert(side_model(opp_after) =~= s_entry.update(li, lvlnew));
        let restm_new = match_rec(
            side_model(opp_after),
            pos_after,
            order,
            margin,
            oid,
            trades_after.len() as int,
            rem_after as int,
            mark,
        );
        assert(restm_new == (MatchResult {
            trades: Seq::<Trade>::empty(),
            side: side_model(opp_after),
            positions: pos_after,
        }));
        assert(trades_after + Seq::<Trade>::empty() =~= trades_after);
    }
}

/// Everything `place_order` promises, relating the book before the call, the
/// book after it, and the result.
///
/// On rejection the book is untouched and the error is exactly the one
/// `validation_error` assigns. On success the call is pinned down by
/// `match_rec`: the returned trades, the opposing side left behind, and the
/// position table left behind are exactly those of price-time-priority
/// matching of this order against the book as it stood. The remaining
/// clauses spell out consequences a caller reaches for most often: the
/// frozen instrument parameters are untouched; the identifier counter
/// advances by one (the taker's identifier) plus one per trade; the trades
/// are appended to the trade history and satisfy `trades_ok`; the matched
/// total never exceeds the order size; a limit remainder rests at the end of
/// its own side's level at the order's price, while a market remainder (or
/// none) leaves that side untouched; the opposing side keeps a subset of its
/// prices, and if the taker was not exhausted, nothing it could still
/// consume remains — no opposing level at all for a market order, only
/// worse-priced levels for a limit order; the book stays well formed with
/// position sizes grown by at most twice the matched total; a taker with no
/// resting order on the opposing side ends with its position size moved by
/// exactly the signed matched total; and traders with no part in the call
/// keep their positions unchanged.
pub open spec fn place_order_post(
    pre: PerpetualOrderBook,
    post: PerpetualOrderBook,
    order: Order,
    margin: u64,
    r: Result<Vec<Trade>, OrderError>,
) -> bool {
    match r {
        Result::Err(e) => validation_error(pre, order, margin) == Some(e) && post == pre,
        Result::Ok(tr) => {
            let filled = trades_total(tr@, 0);
            let rem = order.size - filled;
            &&& validation_error(pre, order, margin) is None
            &&& ({
                let m = match_rec(
                    side_model(pre.opposing(order.side)),
                    pre.positions@,
                    order,
                    margin,
                    pre.next_id,
                    0,
                    order.size as int,
                    pre.mark_price,
                );
                &&& tr@ == m.trades
                &&& side_model(post.opposing(order.side)) == m.side
                &&& post.positions@ == m.positions
            })
            &&& post.mark_price == pre.mark_price
            &&& post.funding_rate == pre.funding_rate
            &&& post.min_margin == pre.min_margin
            &&& post.max_leverage == pre.max_leverage
            &&& post.next_id == pre.next_id + 1 + tr@.len()
            &&& post.trades@ == pre.trades@ + tr@
            &&& 0 <= filled <= order.size
            &&& trades_ok(pre, order, pre.next_id as int, tr@)
            &&& ((rem == 0 || order.order_type is Market) ==> post.same_side(order.side)
                == pre.same_side(order.side))
            &&& ((rem > 0 && order.order_type is Limit) ==> residual_appended(
                pre.same_side(order.side),
                post.same_side(order.side),
                order.price,
                (Order { id: pre.next_id, size: rem as u64, ..order }),
            ))
            &&& forall|p: u64|
                #[trigger] has_price(post.opposing(order.side), p) ==> has_price(
                    pre.opposing(order.side),
                    p,
                )
            &&& ((rem > 0 && order.order_type is Market) ==> post.opposing(order.side).len() == 0)
            &&& ((rem > 0 && order.order_type is Limit) ==> forall|j: int|
                0 <= j < post.opposing(order.side).len() ==> (if order.side is Long {
                    (#[trigger] post.opposing(order.side)[j]).price > order.price
                } else {
                    (#[trigger] post.opposing(order.side)[j]).price < order.price
                }))
            &&& post.wf()
            &&& positions_sized_le(post.positions@, POS_CAP as int + 2 * filled)
            &&& (!trader_resting(pre.opposing(order.side), order.trader_id) ==> pos_size_of(
                post.positions@,
                order.trader_id,
            ) == pos_size_of(pre.positions@, order.trader_id) + (if order.side is Long {
                filled
            } else {
                -filled
            }))
            &&& forall|t: u64|
                t != order.trader_id && !trader_resting(pre.opposing(order.side), t)
                    ==> #[trigger] find_position(post.positions@, t) == find_position(
                    pre.positions@,
                    t,
                )
        },
    }
}

impl PerpetualOrderBook {
    /// Validates an incoming order and, if it is accepted, matches it
    /// against the opposing side of the book in price-time priority,
    /// assigning it a fresh identifier, emitting one trade per fill at the
    /// resting order's price, updating both parties' positions for every
    /// fill (the maker with the opposite sign and its own leverage, but with
    /// the caller-supplied available margin — the engine does not track each
    /// maker's margin separately), committing each consumed level back as a
    /// unit, and finally resting an unmatched limit remainder on the taker's
    /// own side. An unmatched market remainder is dropped without error.
    /// Returns the ordered list of trades this call produced.
    #[verifier::rlimit(100)]
    pub fn place_order(&mut self, order: Order, margin: u64) -> (r: Result<Vec<Trade>, OrderError>)
        requires
            old(self).wf(),
            order.price <= PRICE_CAP,
            order.size <= SIZE_CAP,
            positions_sized_le(old(self).positions@, POS_CAP as int),
            old(self).next_id + 1 + order.size <= u64::MAX,
        ensures
            place_order_post(*old(self), *final(self), order, margin, r),
    {
        let ghost pre = *self;
        if order.price == 0 || order.size == 0 {
            return Err(OrderError::InvalidPrice);
        }
        if order.leverage > self.max_leverage {
            return Err(OrderError::ExceedsMaxLeverage);
        }
        if order.leverage == 0 {
            return Err(OrderError::InsufficientMargin);
        }
        proof {
            crate::units::lemma_mul_bound(
                order.price as int,
                order.size as int,
                u64::MAX as int,
                u64::MAX as int,
            );
        }
        let rm: u128 = ((order.price as u128) * (order.size as u128)) / (order.leverage as u128);
        if rm < (self.min_margin as u128) || rm > (margin as u128) {
            return Err(OrderError::InsufficientMargin);
        }
        let long = match order.side {
            Side::Long => true,
            Side::Short => false,
        };
        let limit = match order.order_type {
            OrderType::Limit => true,
            OrderType::Market => false,
        };
        let oid = self.generate_id();
        let mut trades: Vec<Trade> = Vec::new();
        let mut remaining: u64 = order.size;
        let mut done = false;
        proof {
            let fullm = match_rec(
                side_model(self.opposing(order.side)),
                self.positions@,
                order,
                margin,
                oid,
                0,
                order.size as int,
                pre.mark_price,
            );
            assert(trades@ + fullm.trades =~= fullm.trades);
            assert(self.opposing(order.side) == pre.opposing(order.side));
        }
        while !done && remaining > 0
            invariant
                ({
                    let fullm = match_rec(
                        side_model(pre.opposing(order.side)),
                        pre.positions@,
                        order,
                        margin,
                        oid,
                        0,
                        order.size as int,
                        pre.mark_price,
                    );
                    let restm = match_rec(
                        side_model(self.opposing(order.side)),
                        self.positions@,
                        order,
                        margin,
                        oid,
                        trades@.len() as int,
                        remaining as int,
                        pre.mark_price,
                    );
                    &&& fullm.trades == trades@ + restm.trades
                    &&& fullm.side == restm.side
                    &&& fullm.positions == restm.positions
                }),
                long == (order.side is Long),
                limit == (order.order_type is Limit),
                pre.wf(),
                0 < order.price <= PRICE_CAP,
                0 < order.size <= SIZE_CAP,
                1 <= order.leverage,
                oid == pre.next_id,
                pre.next_id + 1 + order.size <= u64::MAX,
                positions_sized_le(pre.positions@, POS_CAP as int),
                self.mark_price == pre.mark_price,
                self.funding_rate == pre.funding_rate,
                self.min_margin == pre.min_margin,
                self.max_leverage == pre.max_leverage,
                self.same_side(order.side) == pre.same_side(order.side),
                side_wf(self.opposing(order.side)),
                positions_wf(self.positions@),
                remaining <= order.size,
                trades@.len() <= order.size - remaining,
                order.size - remaining == trades_total(trades@, 0),
                self.next_id == oid + 1 + trades@.len(),
                self.trades@ == pre.trades@ + trades@,
                trades_ok(pre, order, oid as int, trades@),
                forall|p: u64|
                    #[trigger] has_price(self.opposing(order.side), p) ==> has_price(
                        pre.opposing(order.side),
                        p,
                    ),
                traders_carried(self.opposing(order.side), pre.opposing(order.side)),
                positions_sized_le(
                    self.positions@,
                    POS_CAP as int + 2 * (order.size - remaining),
                ),
                !trader_resting(pre.opposing(order.side), order.trader_id) ==> pos_size_of(
                    self.positions@,
                    order.trader_id,
                ) == pos_size_of(pre.positions@, order.trader_id) + (if long {
                    order.size - remaining
                } else {
                    -(order.size - remaining)
                }),
                forall|t: u64|
                    t != order.trader_id && !trader_resting(pre.opposing(order.side), t)
                        ==> #[trigger] find_position(self.positions@, t) == find_position(
                        pre.positions@,
                        t,
                    ),
                done ==> ((order.order_type is Market ==> self.opposing(order.side).len() == 0)
                    && (order.order_type is Limit ==> forall|j: int|
                    0 <= j < self.opposing(order.side).len() ==> (if long {
                        (#[trigger] self.opposing(order.side)[j]).price > order.price
                    } else {
                        (#[trigger] self.opposing(order.side)[j]).price < order.price
                    }))),
            decreases (if done {
                0int
            } else {
                1int
            }), self.opposing(order.side).len(), remaining,
        {
            let best = if long {
                self.find_best_ask()
            } else {
                self.find_best_bid()
            };
            match best {
                None => {
                    done = true;
                },
                Some(li) => {
                    let level_price = if long {
                        self.asks[li].price
                    } else {
                        self.bids[li].price
                    };
                    if limit && (if long {
                        level_price > order.price
                    } else {
                        level_price < order.price
                    }) {
                        done = true;
                    } else {
                        proof {
                            assert(level_wf(self.opposing(order.side)[li as int]));
                            assert(has_price(self.opposing(order.side), level_price));
                        }
                        let lvl_orders = if long {
                            clone_vec(&self.asks[li].orders)
                        } else {
                            clone_vec(&self.bids[li].orders)
                        };
                        let lvl_count = lvl_orders.len();
                        let (fills, kept, new_rem) = consume_level(&lvl_orders, remaining);
                        proof {
                            assert(lvl_orders@.len() == lvl_count);
                            lemma_consume_props(lvl_orders@, 0, remaining as int);
                        }
                        let ghost opp_entry = self.opposing(order.side);
                        let ghost rem_entry = remaining;
                        let ghost pos_entry = self.positions@;
                        let ghost trades_entry = trades@;
                        let ghost tc_entry: int = trades@.len() as int;
                        proof {
                            lemma_best_matches(opp_entry, li as int, long);
                            assert(lvl_orders@ == opp_entry[li as int].orders@);
                            assert(side_model(opp_entry)[li as int] == (LevelModel {
                                price: level_price,
                                orders: lvl_orders@,
                            }));
                        }
                        let ghost mut done_sz: int = 0;
                        let mut k: usize = 0;
                        while k < fills.len()
                            invariant
                                long == (order.side is Long),
                                limit == (order.order_type is Limit),
                                pre.wf(),
                                0 < order.price <= PRICE_CAP,
                                0 < order.size <= SIZE_CAP,
                                1 <= order.leverage,
                                oid == pre.next_id,
                                pre.next_id + 1 + order.size <= u64::MAX,
                                0 <= k <= fills@.len(),
                                0 < rem_entry <= order.size,
                                fills@ == level_fills(lvl_orders@, 0, rem_entry as int),
                                forall|m: int|
                                    0 <= m < fills@.len() ==> {
                                        &&& 0 <= (#[trigger] fills@[m]).idx < lvl_orders@.len()
                                        &&& 0 < fills@[m].size
                                            <= lvl_orders@[fills@[m].idx as int].size
                                    },
                                forall|m: int|
                                    0 <= m < lvl_orders@.len() ==> {
                                        &&& 0 < (#[trigger] lvl_orders@[m]).size <= SIZE_CAP
                                        &&& lvl_orders@[m].leverage >= 1
                                        &&& trader_resting(
                                            pre.opposing(order.side),
                                            lvl_orders@[m].trader_id,
                                        )
                                    },
                                fills_total(fills@, 0) <= rem_entry,
                                done_sz == fills_total(fills@, 0) - fills_total(fills@, k as int),
                                0 <= done_sz <= fills_total(fills@, 0),
                                0 < level_price <= PRICE_CAP,
                                has_price(pre.opposing(order.side), level_price),
                                limit ==> (if long {
                                    level_price <= order.price
                                } else {
                                    level_price >= order.price
                                }),
                                self.mark_price == pre.mark_price,
                                self.funding_rate == pre.funding_rate,
                                self.min_margin == pre.min_margin,
                                self.max_leverage == pre.max_leverage,
                                self.same_side(order.side) == pre.same_side(order.side),
                                self.opposing(order.side) == opp_entry,
                                side_wf(opp_entry),
                                positions_wf(self.positions@),
                                self.next_id == oid + 1 + trades@.len(),
                                self.trades@ == pre.trades@ + trades@,
                                trades_ok(pre, order, oid as int, trades@),
                                trades@.len() == tc_entry + k,
                                tc_entry == trades_entry.len(),
                                trades_entry + fills_to_trades(
                                    fills@,
                                    0,
                                    lvl_orders@,
                                    level_price,
                                    order,
                                    oid,
                                    tc_entry,
                                ) =~= trades@ + fills_to_trades(
                                    fills@,
                                    k as int,
                                    lvl_orders@,
                                    level_price,
                                    order,
                                    oid,
                                    tc_entry,
                                ),
                                apply_fills(
                                    pos_entry,
                                    fills@,
                                    0,
                                    lvl_orders@,
                                    level_price,
                                    order,
                                    margin,
                                    pre.mark_price,
                                ) == apply_fills(
                                    self.positions@,
                                    fills@,
                                    k as int,
                                    lvl_orders@,
                                    level_price,
                                    order,
                                    margin,
                                    pre.mark_price,
                                ),
                                trades@.len() <= (order.size - rem_entry) + done_sz,
                                (order.size - rem_entry) + done_sz == trades_total(trades@, 0),
                                positions_sized_le(
                                    self.positions@,
                                    POS_CAP as int + 2 * ((order.size - rem_entry) + done_sz),
                                ),
                                !trader_resting(pre.opposing(order.side), order.trader_id)
                                    ==> pos_size_of(self.positions@, order.trader_id)
                                    == pos_size_of(pre.positions@, order.trader_id) + (if long {
                                    (order.size - rem_entry) + done_sz
                                } else {
                                    -((order.size - rem_entry) + done_sz)
                                }),
                                forall|t: u64|
                                    t != order.trader_id && !trader_resting(
                                        pre.opposing(order.side),
                                        t,
                                    ) ==> #[trigger] find_position(self.positions@, t)
                                        == find_position(pre.positions@, t),
                                forall|p: u64|
                                    #[trigger] has_price(opp_entry, p) ==> has_price(
                                        pre.opposing(order.side),
                                        p,
                                    ),
                                traders_carried(opp_entry, pre.opposing(order.side)),
                            decreases fills@.len() - k,
                        {
                            let f = fills[k];
                            let maker = lvl_orders[f.idx];
                            proof {
                                assert(fills@[k as int] == f);
                                assert(0 < f.size <= lvl_orders@[f.idx as int].size);
                                assert(fills_total(fills@, k as int) == f.size + fills_total(
                                    fills@,
                                    k + 1,
                                ));
                                lemma_fills_total_nonneg(fills@, k + 1);
                                assert(done_sz + f.size <= fills_total(fills@, 0));
                            }
                            let tid = self.generate_id();
                            let tr = Trade {
                                id: tid,
                                maker_order_id: maker.id,
                                taker_order_id: oid,
                                price: level_price,
                                size: f.size,
                                timestamp: order.timestamp,
                            };
                            let ghost trades0 = trades@;
                            trades.push(tr);
                            self.trades.push(tr);
                            proof {
                                lemma_trades_total_push(trades0, tr, 0);
                                assert(self.trades@ =~= pre.trades@ + trades@);
                            }
                            let d: i128 = f.size as i128;
                            let ghost posk = self.positions@;
                            proof {
                                lemma_find_index_props(self.positions@, order.trader_id);
                                if find_index(self.positions@, order.trader_id) >= 0 {
                                    let ix = find_index(self.positions@, order.trader_id);
                                    assert(abs(self.positions@[ix].position.size as int) <= POS_CAP
                                        as int + 2 * ((order.size - rem_entry) + done_sz));
                                }
                            }
                            self.update_position(
                                order.trader_id,
                                if long {
                                    d
                                } else {
                                    -d
                                },
                                level_price,
                                order.leverage,
                                margin,
                            );
                            let ghost posmid = self.positions@;
                            proof {
                                lemma_find_index_props(self.positions@, maker.trader_id);
                                if find_index(self.positions@, maker.trader_id) >= 0 {
                                    let ix = find_index(self.positions@, maker.trader_id);
                                    assert(abs(self.positions@[ix].position.size as int) <= POS_CAP
                                        as int + 2 * ((order.size - rem_entry) + done_sz) + f.size);
                                }
                            }
                            self.update_position(
                                maker.trader_id,
                                if long {
                                    -d
                                } else {
                                    d
                                },
                                level_price,
                                maker.leverage,
                                margin,
                            );
                            proof {
                                done_sz = done_sz + f.size;
                                if !trader_resting(pre.opposing(order.side), order.trader_id) {
                                    assert(trader_resting(
                                        pre.opposing(order.side),
                                        maker.trader_id,
                                    ));
                                    assert(maker.trader_id != order.trader_id);
                                }
                                let tr_spec = Trade {
                                    id: (oid + 1 + tc_entry + k) as u64,
                                    maker_order_id: lvl_orders@[f.idx as int].id,
                                    taker_order_id: oid,
                                    price: level_price,
                                    size: f.size,
                                    timestamp: order.timestamp,
                                };
                                assert(tr == tr_spec);
                                assert(fills_to_trades(
                                    fills@,
                                    k as int,
                                    lvl_orders@,
                                    level_price,
                                    order,
                                    oid,
                                    tc_entry,
                                ) == seq![tr_spec] + fills_to_trades(
                                    fills@,
                                    k + 1,
                                    lvl_orders@,
                                    level_price,
                                    order,
                                    oid,
                                    tc_entry,
                                ));
                                assert(trades@ =~= trades0 + seq![tr_spec]);
                                assert(trades0 + (seq![tr_spec] + fills_to_trades(
                                    fills@,
                                    k + 1,
                                    lvl_orders@,
                                    level_price,
                                    order,
                                    oid,
                                    tc_entry,
                                )) =~= trades@ + fills_to_trades(
                                    fills@,
                                    k + 1,
                                    lvl_orders@,
                                    level_price,
                                    order,
                                    oid,
                                    tc_entry,
                                ));
                                let dsp = if order.side is Long {
                                    f.size as int
                                } else {
                                    -(f.size as int)
                                };
                                assert(posmid == upsert(
                                    posk,
                                    order.trader_id,
                                    updated_position_spec(
                                        find_position(posk, order.trader_id),
                                        dsp,
                                        level_price,
                                        order.leverage,
                                        margin,
                                        pre.mark_price,
                                    ),
                                ));
                                assert(self.positions@ == upsert(
                                    posmid,
                                    maker.trader_id,
                                    updated_position_spec(
                                        find_position(posmid, maker.trader_id),
                                        -dsp,
                                        level_price,
                                        maker.leverage,
                                        margin,
                                        pre.mark_price,
                                    ),
                                ));
                                assert(apply_fills(
                                    posk,
                                    fills@,
                                    k as int,
                                    lvl_orders@,
                                    level_price,
                                    order,
                                    margin,
                                    pre.mark_price,
                                ) == apply_fills(
                                    self.positions@,
                                    fills@,
                                    k + 1,
                                    lvl_orders@,
                                    level_price,
                                    order,
                                    margin,
                                    pre.mark_price,
                                ));
                            }
                            k = k + 1;
                        }
                        proof {
                            assert(fills_total(fills@, fills@.len() as int) == 0);
                            assert(done_sz == fills_total(fills@, 0));
                            assert(fills_to_trades(
                                fills@,
                                fills@.len() as int,
                                lvl_orders@,
                                level_price,
                                order,
                                oid,
                                tc_entry,
                            ) == Seq::<Trade>::empty());
                            assert(trades@ + Seq::<Trade>::empty() =~= trades@);
                            assert(trades@ == trades_entry + fills_to_trades(
                                fills@,
                                0,
                                lvl_orders@,
                                level_price,
                                order,
                                oid,
                                tc_entry,
                            ));
                            assert(apply_fills(
                                self.positions@,
                                fills@,
                                fills@.len() as int,
                                lvl_orders@,
                                level_price,
                                order,
                                margin,
                                pre.mark_price,
                            ) == self.positions@);
                            assert(apply_fills(
                                pos_entry,
                                fills@,
                                0,
                                lvl_orders@,
                                level_price,
                                order,
                                margin,
                                pre.mark_price,
                            ) == self.positions@);
                        }
                        remaining = new_rem;
                        let ghost opp_after: Seq<Level>;
                        if kept.len() == 0 {
                            if long {
                                self.asks.remove(li);
                            } else {
                                self.bids.remove(li);
                            }
                            proof {
                                opp_after = opp_entry.remove(li as int);
                                assert(self.opposing(order.side) =~= opp_after);
                            }
                        } else {
                            let new_level = Level { price: level_price, orders: kept };
                            if long {
                                self.asks.remove(li);
                                self.asks.insert(li, new_level);
                            } else {
                                self.bids.remove(li);
                                self.bids.insert(li, new_level);
                            }
                            proof {
                                opp_after = opp_entry.update(
                                    li as int,
                                    Level { price: level_price, orders: kept },
                                );
                                assert(self.opposing(order.side) =~= opp_after);
                                if remaining > 0 {
                                    assert(level_after(lvl_orders@, 0, rem_entry as int).len()
                                        == 0);
                                    assert(false);
                                }
                            }
                        }
                        proof {
                            let preopp = pre.opposing(order.side);
                            let cur = self.opposing(order.side);
                            assert forall|p: u64| #[trigger] has_price(cur, p) implies has_price(
                                preopp,
                                p,
                            ) by {
                                let j = choose|j: int| 0 <= j < cur.len() && #[trigger] cur[j].price
                                    == p;
                                if kept@.len() == 0 {
                                    let j0 = if j < li as int {
                                        j
                                    } else {
                                        j + 1
                                    };
                                    assert(cur[j] == opp_entry[j0]);
                                    assert(has_price(opp_entry, p));
                                } else {
                                    if j == li as int {
                                        assert(opp_entry[li as int].price == p);
                                        assert(has_price(opp_entry, p));
                                    } else {
                                        assert(cur[j] == opp_entry[j]);
                                        assert(has_price(opp_entry, p));
                                    }
                                }
                            }
                            assert forall|i1: int, j1: int| 0 <= i1 < j1 < cur.len() implies
                                #[trigger] cur[i1].price != #[trigger] cur[j1].price by {
                                let mi = if kept@.len() == 0 && i1 >= li as int {
                                    i1 + 1
                                } else {
                                    i1
                                };
                                let mj = if kept@.len() == 0 && j1 >= li as int {
                                    j1 + 1
                                } else {
                                    j1
                                };
                                assert(cur[i1].price == opp_entry[mi].price);
                                assert(cur[j1].price == opp_entry[mj].price);
                            }
                            assert forall|i1: int| 0 <= i1 < cur.len() implies level_wf(
                                #[trigger] cur[i1],
                            ) by {
                                if kept@.len() == 0 {
                                    let mi = if i1 < li as int {
                                        i1
                                    } else {
                                        i1 + 1
                                    };
                                    assert(cur[i1] == opp_entry[mi]);
                                } else if i1 == li as int {
                                    assert(cur[i1].orders@ == level_after(
                                        lvl_orders@,
                                        0,
                                        rem_entry as int,
                                    ));
                                    assert forall|m: int| 0 <= m < cur[i1].orders@.len() implies {
                                        &&& 0 < #[trigger] cur[i1].orders@[m].size <= SIZE_CAP
                                        &&& cur[i1].orders@[m].leverage >= 1
                                    } by {
                                        assert(order_shrunk_from(
                                            lvl_orders@,
                                            0,
                                            cur[i1].orders@[m],
                                        ));
                                        let j2 = choose|j2: int|
                                            0 <= j2 < lvl_orders@.len() && cur[i1].orders@[m]
                                                == (Order {
                                                size: cur[i1].orders@[m].size,
                                                ..lvl_orders@[j2]
                                            }) && 0 < cur[i1].orders@[m].size
                                                <= #[trigger] lvl_orders@[j2].size;
                                        assert(lvl_orders@[j2].leverage >= 1);
                                    }
                                } else {
                                    assert(cur[i1] == opp_entry[i1]);
                                }
                            }
                            assert forall|j1: int, m: int|
                                0 <= j1 < cur.len() && 0 <= m < cur[j1].orders@.len() implies
                                trader_resting(preopp, (#[trigger] cur[j1].orders@[m]).trader_id)
                                by {
                                if kept@.len() == 0 {
                                    let mi = if j1 < li as int {
                                        j1
                                    } else {
                                        j1 + 1
                                    };
                                    assert(cur[j1] == opp_entry[mi]);
                                    assert(trader_resting(
                                        preopp,
                                        opp_entry[mi].orders@[m].trader_id,
                                    ));
                                } else if j1 == li as int {
                                    assert(order_shrunk_from(lvl_orders@, 0, cur[j1].orders@[m]));
                                    let j2 = choose|j2: int|
                                        0 <= j2 < lvl_orders@.len() && cur[j1].orders@[m] == (Order {
                                            size: cur[j1].orders@[m].size,
                                            ..lvl_orders@[j2]
                                        }) && 0 < cur[j1].orders@[m].size
                                            <= #[trigger] lvl_orders@[j2].size;
                                    assert(trader_resting(preopp, lvl_orders@[j2].trader_id));
                                } else {
                                    assert(cur[j1] == opp_entry[j1]);
                                    assert(trader_resting(
                                        preopp,
                                        opp_entry[j1].orders@[m].trader_id,
                                    ));
                                }
                            }
                        }
                        proof {
                            if kept@.len() > 0 {
                                assert(remaining == 0);
                            }
                            lemma_match_step(
                                opp_entry,
                                self.opposing(order.side),
                                pos_entry,
                                self.positions@,
                                trades_entry,
                                trades@,
                                order,
                                margin,
                                oid,
                                tc_entry,
                                rem_entry,
                                remaining,
                                li as int,
                                level_price,
                                lvl_orders@,
                                kept@,
                                pre.mark_price,
                            );
                        }
                    }
                },
            }
        }
        proof {
            let s_end = side_model(self.opposing(order.side));
            let restm = match_rec(
                s_end,
                self.positions@,
                order,
                margin,
                oid,
                trades@.len() as int,
                remaining as int,
                pre.mark_price,
            );
            if remaining > 0 && self.opposing(order.side).len() > 0 {
                if order.order_type is Market {
                    assert(self.opposing(order.side).len() == 0);
                }
                lemma_best_index_props(s_end, order.side is Long);
                let b = best_index(s_end, order.side is Long);
                assert(s_end[b].price == self.opposing(order.side)[b].price);
                assert(restm == (MatchResult {
                    trades: Seq::<Trade>::empty(),
                    side: s_end,
                    positions: self.positions@,
                }));
            }
            assert(restm.trades == Seq::<Trade>::empty());
            let fullm = match_rec(
                side_model(pre.opposing(order.side)),
                pre.positions@,
                order,
                margin,
                oid,
                0,
                order.size as int,
                pre.mark_price,
            );
            assert(trades@ + restm.trades =~= trades@);
            assert(fullm.trades == trades@);
            assert(fullm.side == s_end);
            assert(fullm.positions == self.positions@);
        }
        if limit && remaining > 0 {
            let res = Order { id: oid, size: remaining, ..order };
            let ghost same0 = self.same_side(order.side);
            let idx = if long {
                find_level_index(&self.bids, order.price)
            } else {
                find_level_index(&self.asks, order.price)
            };
            match idx {
                Some(i) => {
                    if long {
                        let mut lvl = self.bids.remove(i);
                        lvl.orders.push(res);
                        self.bids.insert(i, lvl);
                    } else {
                        let mut lvl = self.asks.remove(i);
                        lvl.orders.push(res);
                        self.asks.insert(i, lvl);
                    }
                    proof {
                        let cur = self.same_side(order.side);
                        assert(cur =~= same0.update(
                            i as int,
                            (Level {
                                price: same0[i as int].price,
                                orders: cur[i as int].orders,
                            }),
                        ));
                        assert(cur[i as int].orders@ == same0[i as int].orders@.push(res));
                        assert forall|j: int|
                            0 <= j < same0.len() && same0[j].price == order.price implies
                            #[trigger] cur[j].orders@ == same0[j].orders@.push(res) by {
                            if j != i as int {
                                assert(same0[j].price != same0[i as int].price);
                                assert(false);
                            }
                        }
                    }
                },
                None => {
                    let mut one: Vec<Order> = Vec::new();
                    one.push(res);
                    let lvl = Level { price: order.price, orders: one };
                    if long {
                        self.bids.push(lvl);
                    } else {
                        self.asks.push(lvl);
                    }
                    proof {
                        let cur = self.same_side(order.side);
                        assert(cur[same0.len() as int].orders@ =~= seq![res]);
                    }
                },
            }
            proof {
                let cur = self.same_side(order.side);
                assert(residual_appended(same0, cur, order.price, res));
                assert forall|i1: int, j1: int| 0 <= i1 < j1 < cur.len() implies
                    #[trigger] cur[i1].price != #[trigger] cur[j1].price by {
                    if j1 < same0.len() {
                        assert(cur[i1].price == same0[i1].price);
                        assert(cur[j1].price == same0[j1].price);
                    } else {
                        assert(cur[i1].price == same0[i1].price);
                        assert(!has_price(same0, order.price));
                    }
                }
                assert forall|i1: int| 0 <= i1 < cur.len() implies level_wf(#[trigger] cur[i1]) by {
                    if i1 < same0.len() {
                        if has_price(same0, order.price) && same0[i1].price == order.price {
                            assert(cur[i1].orders@ == same0[i1].orders@.push(res));
                            assert(level_wf(same0[i1]));
                            assert forall|m: int| 0 <= m < cur[i1].orders@.len() implies {
                                &&& 0 < #[trigger] cur[i1].orders@[m].size <= SIZE_CAP
                                &&& cur[i1].orders@[m].leverage >= 1
                            } by {
                                if m < same0[i1].orders@.len() {
                                    assert(cur[i1].orders@[m] == same0[i1].orders@[m]);
                                } else {
                                    assert(cur[i1].orders@[m] == res);
                                }
                            }
                        } else {
                            assert(cur[i1] == same0[i1] || cur[i1].orders@ == same0[i1].orders@);
                            assert(level_wf(same0[i1]));
                            assert(cur[i1].price == same0[i1].price);
                        }
                    } else {
                        assert(cur[i1].orders@ == seq![res]);
                        assert(cur[i1].orders@[0] == res);
                    }
                }
            }
        }
        proof {
            assert(trades_total(trades@, 0) == order.size - remaining);
        }
        Ok(trades)
    }
}

/// Fill conservation for one matching call: when the taker has no resting
/// order of its own on the opposing side, its position size moves by exactly
/// the signed sum of the returned trade sizes — a long taker's fills add to
/// it, a short taker's subtract — and every trader with no part in the call
/// keeps its position unchanged.
pub proof fn lemma_fill_conservation(
    pre: PerpetualOrderBook,
    post: PerpetualOrderBook,
    order: Order,
    margin: u64,
    tr: Vec<Trade>,
)
    requires
        place_order_post(pre, post, order, margin, Result::Ok(tr)),
        !trader_resting(pre.opposing(order.side), order.trader_id),
    ensures
        pos_size_of(post.positions@, order.trader_id) == pos_size_of(
            pre.positions@,
            order.trader_id,
        ) + (if order.side is Long {
            trades_total(tr@, 0)
        } else {
            -trades_total(tr@, 0)
        }),
        forall|t: u64|
            t != order.trader_id && !trader_resting(pre.opposing(order.side), t)
                ==> #[trigger] find_position(post.positions@, t) == find_position(
                pre.positions@,
                t,
            ),
{
}

/// Linear search for a trader's entry in the position table.
fn find_pos_index(es: &Vec<PositionEntry>, t: u64) -> (r: Option<usize>)
    ensures
        match r {
            None => find_index(es@, t) == -1,
            Some(i) => find_index(es@, t) == i as int && i < es@.len(),
        },
{
    let mut i: usize = 0;
    while i < es.len()
        invariant
            0 <= i <= es@.len(),
            forall|j: int| 0 <= j < i ==> #[trigger] es@[j].trader_id != t,
        decreases es@.len() - i,
    {
        if es[i].trader_id == t {
            proof {
                lemma_find_index_at(es@, t, i as int);
            }
            return Some(i);
        }
        i = i + 1;
    }
    proof {
        lemma_find_index_props(es@, t);
        if find_index(es@, t) >= 0 {
            assert(es@[find_index(es@, t)].trader_id == t);
            assert(false);
        }
    }
    None
}

/// Clones all orders in the given vector.
pub fn clone_vec(v: &Vec<Order>) -> (r: Vec<Order>)
    ensures
        r@ == v@,
{
    let mut out: Vec<Order> = Vec::new();
    let mut i: usize = 0;
    while i < v.len()
        invariant
            0 <= i <= v@.len(),
            out@ == v@.subrange(0, i as int),
        decreases v@.len() - i,
    {
        out.push(v[i]);
        proof {
            assert(out@ =~= v@.subrange(0, i + 1));
        }
        i = i + 1;
    }
    proof {
        assert(v@.subrange(0, v@.len() as int) =~= v@);
    }
    out
}

} // verus!
