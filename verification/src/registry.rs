//! The instrument registry: resolves an instrument identifier to its order
//! book and forwards the engine's entry points to it. Also the message
//! record the host attaches to governance proposals; the proposal workflow
//! itself lives outside the engine.

use vstd::prelude::*;
use crate::units::{PRICE_CAP, SIZE_CAP, POS_CAP, MARGIN_CAP, TOTAL_CAP};
use crate::order::{Order, Trade, OrderError};
use crate::book::{
    PerpetualOrderBook, place_order_post, liquidated_ids, surviving, debited, funding_rate_spec,
    total_long, total_short, positions_sized_le, margins_le,
};

verus! {

/// A chat message attached to a governance proposal. The engine stores and
/// returns these as opaque records.
#[derive(Debug)]
pub struct Message {
    pub id: String,
    pub proposal_id: String,
    pub author: String,
    pub text: String,
    pub created_at: String,
}

/// One instrument's order book, keyed by its token identifier.
pub struct BookEntry {
    pub token_id: u32,
    pub book: PerpetualOrderBook,
}

/// The application state the engine owns: one order book per instrument.
pub struct AppState {
    pub perpetual_order_book: Vec<BookEntry>,
}

/// Index of the book for `t` in the registry, `-1` if absent.
pub open spec fn find_book_index(es: Seq<BookEntry>, t: u32) -> int
    decreases es.len(),
{
    if es.len() == 0 {
        -1
    } else if es[0].token_id == t {
        0
    } else {
        let r = find_book_index(es.drop_first(), t);
        if r < 0 {
            -1
        } else {
            r + 1
        }
    }
}

pub proof fn lemma_find_book_index_props(es: Seq<BookEntry>, t: u32)
    ensures
        -1 <= find_book_index(es, t) < es.len(),
        find_book_index(es, t) >= 0 ==> es[find_book_index(es, t)].token_id == t,
        find_book_index(es, t) == -1 ==> forall|j: int|
            0 <= j < es.len() ==> #[trigger] es[j].token_id != t,
    decreases es.len(),
{
    if es.len() > 0 && es[0].token_id != t {
        lemma_find_book_index_props(es.drop_first(), t);
        if find_book_index(es, t) == -1 {
            assert forall|j: int| 0 <= j < es.len() implies #[trigger] es[j].token_id != t by {
                if j > 0 {
                    assert(es.drop_first()[j - 1] == es[j]);
                }
            }
        }
    }
}

pub proof fn lemma_find_book_index_at(es: Seq<BookEntry>, t: u32, i: int)
    requires
        0 <= i < es.len(),
        es[i].token_id == t,
        forall|j: int| 0 <= j < i ==> #[trigger] es[j].token_id != t,
    ensures
        find_book_index(es, t) == i,
    decreases i,
{
    if i > 0 {
        lemma_find_book_index_at(es.drop_first(), t, i - 1);
    }
}

/// A just-created book: empty, counters reset, parameters as given.
pub open spec fn fresh_book(
    b: PerpetualOrderBook,
    initial_mark_price: u64,
    min_margin: u64,
    max_leverage: u64,
) -> bool {
    &&& b.next_id == 1
    &&& b.bids@.len() == 0
    &&& b.asks@.len() == 0
    &&& b.positions@.len() == 0
    &&& b.trades@.len() == 0
    &&& b.mark_price == initial_mark_price
    &&& b.funding_rate == 0
    &&& b.min_margin == min_margin
    &&& b.max_leverage == max_leverage
    &&& b.wf()
}

impl AppState {
    /// The registry invariant: token identifiers pairwise distinct, every
    /// book well formed.
    pub open spec fn wf(self) -> bool {
        &&& forall|i: int, j: int|
            0 <= i < j < self.perpetual_order_book@.len()
                ==> #[trigger] self.perpetual_order_book@[i].token_id
                != #[trigger] self.perpetual_order_book@[j].token_id
        &&& forall|i: int|
            0 <= i < self.perpetual_order_book@.len()
                ==> (#[trigger] self.perpetual_order_book@[i]).book.wf()
    }

    /// The book registered for `t`, if any.
    pub open spec fn book_of(self, t: u32) -> Option<PerpetualOrderBook> {
        let i = find_book_index(self.perpetual_order_book@, t);
        if i < 0 {
            None
        } else {
            Some(self.perpetual_order_book@[i].book)
        }
    }

    /// An empty registry.
    pub fn init() -> (r: AppState)
        ensures
            r.perpetual_order_book@.len() == 0,
            r.wf(),
    {
        AppState { perpetual_order_book: Vec::new() }
    }

    /// Registers a fresh order book for `token_id`, replacing any existing
    /// book for that instrument.
    pub fn create_perpetual_order_book(
        &mut self,
        token_id: u32,
        initial_mark_price: u64,
        min_margin: u64,
        max_leverage: u64,
    )
        requires
            old(self).wf(),
            initial_mark_price <= PRICE_CAP,
        ensures
            final(self).wf(),
            fresh_book(
                final(self).book_of(token_id).unwrap(),
                initial_mark_price,
                min_margin,
                max_leverage,
            ),
            final(self).book_of(token_id) is Some,
            forall|t: u32|
                t != token_id ==> #[trigger] final(self).book_of(t) == old(self).book_of(t),
    {
        let book = PerpetualOrderBook::new(initial_mark_price, min_margin, max_leverage);
        proof {
            lemma_find_book_index_props(old(self).perpetual_order_book@, token_id);
        }
        let idx = find_book_entry(&self.perpetual_order_book, token_id);
        let entry = BookEntry { token_id, book };
        match idx {
            Some(i) => {
                self.perpetual_order_book.remove(i);
                self.perpetual_order_book.insert(i, entry);
                proof {
                    assert(self.perpetual_order_book@ =~= old(self).perpetual_order_book@.update(
                        find_book_index(old(self).perpetual_order_book@, token_id),
                        entry,
                    ));
                }
            },
            None => {
                self.perpetual_order_book.push(entry);
            },
        }
        proof {
            self.lemma_upserted(*old(self), token_id, entry);
        }
    }

    /// After an upsert of `entry` at `token_id`, lookups behave as expected.
    proof fn lemma_upserted(self, pre: AppState, token_id: u32, entry: BookEntry)
        requires
            pre.wf(),
            entry.token_id == token_id,
            ({
                let i0 = find_book_index(pre.perpetual_order_book@, token_id);
                if i0 >= 0 {
                    self.perpetual_order_book@ == pre.perpetual_order_book@.update(i0, entry)
                } else {
                    self.perpetual_order_book@ == pre.perpetual_order_book@.push(entry)
                }
            }),
            entry.book.wf(),
        ensures
            self.wf(),
            self.book_of(token_id) == Some(entry.book),
            forall|t: u32| t != token_id ==> #[trigger] self.book_of(t) == pre.book_of(t),
    {
        let es0 = pre.perpetual_order_book@;
        let es1 = self.perpetual_order_book@;
        let i0 = find_book_index(es0, token_id);
        lemma_find_book_index_props(es0, token_id);
        if i0 >= 0 {
            lemma_find_book_index_at(es1, token_id, i0);
        } else {
            assert forall|j: int| 0 <= j < es0.len() implies #[trigger] es1[j].token_id != token_id
                by {
                assert(es1[j] == es0[j]);
            }
            lemma_find_book_index_at(es1, token_id, es0.len() as int);
        }
        assert forall|t: u32| t != token_id implies #[trigger] self.book_of(t) == pre.book_of(t) by {
            lemma_find_book_index_props(es0, t);
            lemma_find_book_index_props(es1, t);
            let j0 = find_book_index(es0, t);
            if j0 >= 0 {
                lemma_find_book_index_at(es1, t, j0);
            } else {
                if find_book_index(es1, t) >= 0 {
                    assert(es1[find_book_index(es1, t)].token_id == t);
                    assert(false);
                }
            }
        }
    }

    /// Resolves the instrument and forwards to the book's matching entry
    /// point; an unknown instrument is `OrderNotFound` and changes nothing.
    pub fn place_order(&mut self, token_id: u32, order: Order, margin: u64) -> (r: Result<
        Vec<Trade>,
        OrderError,
    >)
        requires
            old(self).wf(),
            order.price <= PRICE_CAP,
            order.size <= SIZE_CAP,
            ({
                match old(self).book_of(token_id) {
                    Some(b) => positions_sized_le(b.positions@, POS_CAP as int) && b.next_id + 1
                        + order.size <= u64::MAX,
                    None => true,
                }
            }),
        ensures
            final(self).wf(),
            old(self).book_of(token_id) is None ==> r == Result::<Vec<Trade>, OrderError>::Err(
                OrderError::OrderNotFound,
            ) && *final(self) == *old(self),
            old(self).book_of(token_id) is Some ==> place_order_post(
                old(self).book_of(token_id).unwrap(),
                final(self).book_of(token_id).unwrap(),
                order,
                margin,
                r,
            ) && final(self).book_of(token_id) is Some,
            forall|t: u32|
                t != token_id ==> #[trigger] final(self).book_of(t) == old(self).book_of(t),
    {
        proof {
            lemma_find_book_index_props(old(self).perpetual_order_book@, token_id);
        }
        let idx = find_book_entry(&self.perpetual_order_book, token_id);
        match idx {
            None => Err(OrderError::OrderNotFound),
            Some(i) => {
                let mut entry = self.perpetual_order_book.remove(i);
                let result = entry.book.place_order(order, margin);
                self.perpetual_order_book.insert(i, entry);
                proof {
                    let i0 = find_book_index(old(self).perpetual_order_book@, token_id);
                    assert(self.perpetual_order_book@ =~= old(self).perpetual_order_book@.update(
                        i0,
                        self.perpetual_order_book@[i0],
                    ));
                    self.lemma_upserted(*old(self), token_id, self.perpetual_order_book@[i0]);
                }
                result
            },
        }
    }

    /// Resolves the instrument and forwards the mark-price move, returning
    /// the liquidated traders; an unknown instrument is `OrderNotFound`.
    pub fn update_mark_price(&mut self, token_id: u32, new_mark_price: u64) -> (r: Result<
        Vec<u64>,
        OrderError,
    >)
        requires
            old(self).wf(),
            new_mark_price <= PRICE_CAP,
            ({
                match old(self).book_of(token_id) {
                    Some(b) => positions_sized_le(b.positions@, POS_CAP as int),
                    None => true,
                }
            }),
        ensures
            final(self).wf(),
            old(self).book_of(token_id) is None ==> r == Result::<Vec<u64>, OrderError>::Err(
                OrderError::OrderNotFound,
            ) && *final(self) == *old(self),
            old(self).book_of(token_id) is Some ==> {
                let b0 = old(self).book_of(token_id).unwrap();
                let b1 = final(self).book_of(token_id).unwrap();
                &&& final(self).book_of(token_id) is Some
                &&& r matches Ok(ids) && ids@ == liquidated_ids(
                    b0.positions@,
                    0,
                    new_mark_price as int,
                )
                &&& b1 == (PerpetualOrderBook {
                    mark_price: new_mark_price,
                    positions: b1.positions,
                    ..b0
                })
                &&& b1.positions@ == surviving(b0.positions@, 0, new_mark_price as int)
            },
            forall|t: u32|
                t != token_id ==> #[trigger] final(self).book_of(t) == old(self).book_of(t),
    {
        proof {
            lemma_find_book_index_props(old(self).perpetual_order_book@, token_id);
        }
        let idx = find_book_entry(&self.perpetual_order_book, token_id);
        match idx {
            None => Err(OrderError::OrderNotFound),
            Some(i) => {
                let mut entry = self.perpetual_order_book.remove(i);
                let ids = entry.book.update_mark_price(new_mark_price);
                self.perpetual_order_book.insert(i, entry);
                proof {
                    let i0 = find_book_index(old(self).perpetual_order_book@, token_id);
                    assert(self.perpetual_order_book@ =~= old(self).perpetual_order_book@.update(
                        i0,
                        self.perpetual_order_book@[i0],
                    ));
                    self.lemma_upserted(*old(self), token_id, self.perpetual_order_book@[i0]);
                }
                Ok(ids)
            },
        }
    }

    /// Resolves the instrument and forwards the funding tick; an unknown
    /// instrument is `OrderNotFound`.
    pub fn update_funding_rate(&mut self, token_id: u32) -> (r: Result<(), OrderError>)
        requires
            old(self).wf(),
            ({
                match old(self).book_of(token_id) {
                    Some(b) => positions_sized_le(b.positions@, POS_CAP as int) && margins_le(
                        b.positions@,
                        MARGIN_CAP as int,
                    ) && total_long(b.positions@, 0) + total_short(b.positions@, 0) <= TOTAL_CAP
                        as int,
                    None => true,
                }
            }),
        ensures
            final(self).wf(),
            old(self).book_of(token_id) is None ==> r == Result::<(), OrderError>::Err(
                OrderError::OrderNotFound,
            ) && *final(self) == *old(self),
            old(self).book_of(token_id) is Some ==> {
                let b0 = old(self).book_of(token_id).unwrap();
                let b1 = final(self).book_of(token_id).unwrap();
                &&& final(self).book_of(token_id) is Some
                &&& r is Ok
                &&& b1 == (PerpetualOrderBook {
                    funding_rate: b1.funding_rate,
                    positions: b1.positions,
                    ..b0
                })
                &&& b1.funding_rate as int == (if total_long(b0.positions@, 0) + total_short(
                    b0.positions@,
                    0,
                ) > 0 {
                    funding_rate_spec(total_long(b0.positions@, 0), total_short(b0.positions@, 0))
                } else {
                    b0.funding_rate as int
                })
                &&& b1.positions@ == debited(
                    b0.positions@,
                    0,
                    b0.mark_price as int,
                    b1.funding_rate as int,
                )
                &&& (total_long(b0.positions@, 0) == total_short(b0.positions@, 0) ==> b1.positions@
                    == b0.positions@)
            },
            forall|t: u32|
                t != token_id ==> #[trigger] final(self).book_of(t) == old(self).book_of(t),
    {
        proof {
            lemma_find_book_index_props(old(self).perpetual_order_book@, token_id);
        }
        let idx = find_book_entry(&self.perpetual_order_book, token_id);
        match idx {
            None => Err(OrderError::OrderNotFound),
            Some(i) => {
                let mut entry = self.perpetual_order_book.remove(i);
                entry.book.update_funding_rate();
                self.perpetual_order_book.insert(i, entry);
                proof {
                    let i0 = find_book_index(old(self).perpetual_order_book@, token_id);
                    assert(self.perpetual_order_book@ =~= old(self).perpetual_order_book@.update(
                        i0,
                        self.perpetual_order_book@[i0],
                    ));
                    self.lemma_upserted(*old(self), token_id, self.perpetual_order_book@[i0]);
                }
                Ok(())
            },
        }
    }
}

/// Linear search for an instrument's entry in the registry.
fn find_book_entry(es: &Vec<BookEntry>, t: u32) -> (r: Option<usize>)
    ensures
        match r {
            None => find_book_index(es@, t) == -1,
            Some(i) => find_book_index(es@, t) == i as int && i < es@.len(),
        },
{
    let mut i: usize = 0;
    while i < es.len()
        invariant
            0 <= i <= es@.len(),
            forall|j: int| 0 <= j < i ==> #[trigger] es@[j].token_id != t,
        decreases es@.len() - i,
    {
        if es[i].token_id == t {
            proof {
                lemma_find_book_index_at(es@, t, i as int);
            }
            return Some(i);
        }
        i = i + 1;
    }
    proof {
        lemma_find_book_index_props(es@, t);
        if find_book_index(es@, t) >= 0 {
            assert(es@[find_book_index(es@, t)].token_id == t);
            assert(false);
        }
    }
    None
}

} // verus!
