//! The multi-instrument facade: a registry from instrument symbol to
//! its own order book. Per-symbol operations forward to the symbol's
//! book; a book is created on first use of its symbol.

use vstd::prelude::*;
use vstd::string::StringExecFns;
use crate::model::{level_info_v, min_q, replace_price, replace_qty, LevelV, OrderLoc};
use crate::orderbook::OrderBook;
use crate::types::{
    Order, OrderBookError, OrderBookSnapshot, OrderId, OrderType, Price, Quantity, Trade,
};

verus! {

pub struct MatchingEngine {
    /// The registered instruments, in order of first use; symbols are
    /// distinct.
    pub order_books: Vec<(String, OrderBook)>,
}

/// The first registry position holding this symbol, or the length.
pub open spec fn sym_index(s: Seq<(String, OrderBook)>, sym: Seq<char>) -> int
    decreases s.len(),
{
    if s.len() == 0 {
        0
    } else if s[0].0@ == sym {
        0
    } else {
        1 + sym_index(s.drop_first(), sym)
    }
}

pub open spec fn has_sym(s: Seq<(String, OrderBook)>, sym: Seq<char>) -> bool {
    exists|i: int| 0 <= i < s.len() && (#[trigger] s[i]).0@ == sym
}

impl MatchingEngine {
    pub open spec fn wf(self) -> bool {
        &&& forall|i: int|
            0 <= i < self.order_books@.len() ==> (#[trigger] self.order_books@[i]).1.wf()
        &&& forall|i: int, j: int|
            0 <= i < j < self.order_books@.len() ==> (#[trigger] self.order_books@[i]).0@ != (
            #[trigger] self.order_books@[j]).0@
    }

    /// The book registered for a symbol, if any.
    pub open spec fn book_of(self, sym: Seq<char>) -> Option<OrderBook> {
        if has_sym(self.order_books@, sym) {
            Option::Some(self.order_books@[sym_index(self.order_books@, sym)].1)
        } else {
            Option::None
        }
    }

    pub fn new() -> (r: Self)
        ensures
            r.wf(),
            r.order_books@.len() == 0,
    {
        MatchingEngine { order_books: Vec::new() }
    }

    /// Submit an order for a symbol, creating the symbol's book on
    /// first use; forwards to that book's `add_order`.
    pub fn add_order(&mut self, symbol: &str, order: Order) -> (r: Result<
        Vec<Trade>,
        OrderBookError,
    >)
        requires
            old(self).wf(),
            order.remaining_quantity == order.quantity,
            match old(self).book_of(symbol@) {
                Option::Some(b) => b.total_resting() + order.quantity <= u64::MAX,
                Option::None => true,
            },
        ensures
            final(self).wf(),
            has_sym(final(self).order_books@, symbol@),
            final(self).order_books@.len() == old(self).order_books@.len() + (if has_sym(
                old(self).order_books@,
                symbol@,
            ) {
                0int
            } else {
                1int
            }),
            forall|i: int|
                0 <= i < old(self).order_books@.len() ==> (#[trigger] final(self).order_books@[i]).0@ == old(self).order_books@[i].0@,
            forall|i: int|
                0 <= i < old(self).order_books@.len() && (#[trigger] old(self).order_books@[i]).0@
                    != symbol@ ==> final(self).order_books@[i] == old(self).order_books@[i],
            match final(self).book_of(symbol@) {
                Option::Some(b1) => {
                    &&& b1.wf()
                    &&& match r {
                        Result::Ok(trades) => match old(self).book_of(symbol@) {
                            Option::Some(b0) => OrderBook::add_outcome(b0, b1, order, trades@),
                            Option::None => OrderBook::add_outcome_v(
                                Seq::<LevelV>::empty(),
                                Seq::<LevelV>::empty(),
                                Seq::<OrderLoc>::empty(),
                                b1,
                                order,
                                trades@,
                            ),
                        },
                        Result::Err(e) => {
                            &&& match old(self).book_of(symbol@) {
                                Option::Some(b0) => b1 == b0,
                                Option::None => b1.bids_v() == Seq::<LevelV>::empty()
                                    && b1.asks_v() == Seq::<LevelV>::empty() && b1.orders@
                                    == Seq::<OrderLoc>::empty(),
                            }
                            &&& match e {
                                OrderBookError::OrderAlreadyExists { order_id } => order_id
                                    == order.id && b1.book_has_id(order.id),
                                OrderBookError::InvalidPrice { price } => price == order.price
                                    && order.price == 0 && order.order_type != OrderType::Market,
                                OrderBookError::InvalidQuantity { quantity } => quantity
                                    == order.quantity && (order.price > 0 || order.order_type
                                    == OrderType::Market) && order.quantity == 0,
                                _ => false,
                            }
                        },
                    }
                },
                Option::None => false,
            },
    {
        let sym = <String as StringExecFns>::from_str(symbol);
        let ghost s0 = self.order_books@;
        match find_symbol(&self.order_books, &sym) {
            Some(k) => {
                let mut entry = self.order_books.remove(k);
                let r = entry.1.add_order(order);
                self.order_books.insert(k, entry);
                proof {
                    assert(self.order_books@ =~= s0.update(
                        k as int,
                        self.order_books@[k as int],
                    ));
                    lemma_sym_index_at(s0, sym@, k as int);
                    lemma_sym_index_at(self.order_books@, sym@, k as int);
                    assert forall|i: int, j: int|
                        0 <= i < j < self.order_books@.len() implies (
                    #[trigger] self.order_books@[i]).0@ != (
                    #[trigger] self.order_books@[j]).0@ by {
                        assert(self.order_books@[i].0 == s0[i].0);
                        assert(self.order_books@[j].0 == s0[j].0);
                    }
                }
                r
            },
            None => {
                let mut book = OrderBook::new();
                let ghost book0 = book;
                let r = book.add_order(order);
                proof {
                    assert(book0.bids_v() =~= Seq::<LevelV>::empty());
                    assert(book0.asks_v() =~= Seq::<LevelV>::empty());
                    assert(book0.orders@ =~= Seq::<OrderLoc>::empty());
                }
                self.order_books.push((sym, book));
                proof {
                    let s1 = self.order_books@;
                    assert(s1[s0.len() as int].0@ == symbol@);
                    assert forall|m: int| 0 <= m < s0.len() implies (#[trigger] s1[m]).0@
                        != symbol@ by {
                        assert(s1[m] == s0[m]);
                    }
                    lemma_sym_index_at(s1, sym@, s0.len() as int);
                    assert forall|i: int, j: int| 0 <= i < j < s1.len() implies (
                    #[trigger] s1[i]).0@ != (#[trigger] s1[j]).0@ by {
                        if j < s0.len() {
                            assert(s1[i] == s0[i] && s1[j] == s0[j]);
                        } else {
                            assert(s1[i] == s0[i]);
                            assert(s1[i].0@ != sym@);
                        }
                    }
                }
                r
            },
        }
    }

    /// Cancel an order of a symbol's book; an unknown symbol fails
    /// with `OrderNotFound`.
    pub fn cancel_order(&mut self, symbol: &str, order_id: OrderId) -> (r: Result<
        (),
        OrderBookError,
    >)
        requires
            old(self).wf(),
        ensures
            final(self).wf(),
            final(self).order_books@.len() == old(self).order_books@.len(),
            forall|i: int|
                0 <= i < old(self).order_books@.len() ==> (#[trigger] final(self).order_books@[i]).0@ == old(self).order_books@[i].0@,
            forall|i: int|
                0 <= i < old(self).order_books@.len() && (#[trigger] old(self).order_books@[i]).0@
                    != symbol@ ==> final(self).order_books@[i] == old(self).order_books@[i],
            match old(self).book_of(symbol@) {
                Option::Some(b0) => match final(self).book_of(symbol@) {
                    Option::Some(b1) => match r {
                        Result::Ok(()) => b0.book_has_id(order_id) && b1.bids_v()
                            == crate::model::cancel_ladder(b0.bids_v(), order_id) && b1.asks_v()
                            == crate::model::cancel_ladder(b0.asks_v(), order_id),
                        Result::Err(e) => e == (OrderBookError::OrderNotFound { order_id })
                            && !b0.book_has_id(order_id) && b1 == b0,
                    },
                    Option::None => false,
                },
                Option::None => r == Result::<(), OrderBookError>::Err(
                    OrderBookError::OrderNotFound { order_id },
                ) && *final(self) == *old(self),
            },
    {
        let sym = <String as StringExecFns>::from_str(symbol);
        let ghost s0 = self.order_books@;
        match find_symbol(&self.order_books, &sym) {
            Some(k) => {
                let mut entry = self.order_books.remove(k);
                let r = entry.1.cancel_order(order_id);
                self.order_books.insert(k, entry);
                proof {
                    assert(self.order_books@ =~= s0.update(
                        k as int,
                        self.order_books@[k as int],
                    ));
                    lemma_sym_index_at(s0, sym@, k as int);
                    lemma_sym_index_at(self.order_books@, sym@, k as int);
                    assert forall|i: int, j: int|
                        0 <= i < j < self.order_books@.len() implies (
                    #[trigger] self.order_books@[i]).0@ != (
                    #[trigger] self.order_books@[j]).0@ by {
                        assert(self.order_books@[i].0 == s0[i].0);
                        assert(self.order_books@[j].0 == s0[j].0);
                    }
                }
                r
            },
            None => Err(OrderBookError::OrderNotFound { order_id }),
        }
    }

    /// Modify an order of a symbol's book; an unknown symbol fails
    /// with `OrderNotFound`.
    pub fn modify_order(
        &mut self,
        symbol: &str,
        order_id: OrderId,
        new_price: Option<Price>,
        new_quantity: Option<Quantity>,
    ) -> (r: Result<Vec<Trade>, OrderBookError>)
        requires
            old(self).wf(),
            match old(self).book_of(symbol@) {
                Option::Some(b0) => b0.book_has_id(order_id) ==> b0.total_resting()
                    - b0.find_resting(order_id).remaining_quantity + crate::model::replace_qty(
                    b0.find_resting(order_id),
                    new_quantity,
                ) <= u64::MAX,
                Option::None => true,
            },
        ensures
            final(self).wf(),
            final(self).order_books@.len() == old(self).order_books@.len(),
            forall|i: int|
                0 <= i < old(self).order_books@.len() ==> (#[trigger] final(self).order_books@[i]).0@ == old(self).order_books@[i].0@,
            forall|i: int|
                0 <= i < old(self).order_books@.len() && (#[trigger] old(self).order_books@[i]).0@
                    != symbol@ ==> final(self).order_books@[i] == old(self).order_books@[i],
            match old(self).book_of(symbol@) {
                Option::Some(b0) => match final(self).book_of(symbol@) {
                    Option::Some(b1) => match r {
                        Result::Ok(trades) => b0.book_has_id(order_id)
                            && OrderBook::modify_outcome(
                            b0,
                            b1,
                            order_id,
                            new_price,
                            new_quantity,
                            trades@,
                        ),
                        Result::Err(e) => match e {
                            OrderBookError::OrderNotFound { order_id: oid } => oid == order_id
                                && !b0.book_has_id(order_id) && b1 == b0,
                            OrderBookError::InvalidPrice { price } => b0.book_has_id(order_id)
                                && price == replace_price(b0.find_resting(order_id), new_price)
                                && price == 0 && OrderBook::cancelled_state(b0, b1, order_id),
                            OrderBookError::InvalidQuantity { quantity } => b0.book_has_id(
                                order_id,
                            ) && quantity == replace_qty(b0.find_resting(order_id), new_quantity)
                                && quantity == 0 && replace_price(
                                b0.find_resting(order_id),
                                new_price,
                            ) > 0 && OrderBook::cancelled_state(b0, b1, order_id),
                            OrderBookError::OrderAlreadyExists { .. } => b0.book_has_id(order_id)
                                && OrderBook::cancelled_state(b0, b1, order_id),
                            _ => false,
                        },
                    },
                    Option::None => false,
                },
                Option::None => r == Result::<Vec<Trade>, OrderBookError>::Err(
                    OrderBookError::OrderNotFound { order_id },
                ) && *final(self) == *old(self),
            },
    {
        let sym = <String as StringExecFns>::from_str(symbol);
        let ghost s0 = self.order_books@;
        match find_symbol(&self.order_books, &sym) {
            Some(k) => {
                let mut entry = self.order_books.remove(k);
                let r = entry.1.modify_order(order_id, new_price, new_quantity);
                self.order_books.insert(k, entry);
                proof {
                    assert(self.order_books@ =~= s0.update(
                        k as int,
                        self.order_books@[k as int],
                    ));
                    lemma_sym_index_at(s0, sym@, k as int);
                    lemma_sym_index_at(self.order_books@, sym@, k as int);
                    assert forall|i: int, j: int|
                        0 <= i < j < self.order_books@.len() implies (
                    #[trigger] self.order_books@[i]).0@ != (
                    #[trigger] self.order_books@[j]).0@ by {
                        assert(self.order_books@[i].0 == s0[i].0);
                        assert(self.order_books@[j].0 == s0[j].0);
                    }
                }
                r
            },
            None => Err(OrderBookError::OrderNotFound { order_id }),
        }
    }

    /// Snapshot of a symbol's book, if registered: up to `max_levels`
    /// best levels of each side, best first, with that book's
    /// sequence number.
    pub fn get_order_book_snapshot(&self, symbol: &str, max_levels: usize) -> (r: Option<
        OrderBookSnapshot,
    >)
        requires
            self.wf(),
        ensures
            r is Some <==> has_sym(self.order_books@, symbol@),
            match r {
                Some(s) => match self.book_of(symbol@) {
                    Option::Some(b) => {
                        &&& s.bids@.len() == min_q(max_levels as int, b.bids_v().len() as int)
                        &&& s.asks@.len() == min_q(max_levels as int, b.asks_v().len() as int)
                        &&& forall|i: int|
                            0 <= i < s.bids@.len() ==> #[trigger] s.bids@[i] == level_info_v(
                                b.bids_v()[i],
                            )
                        &&& forall|i: int|
                            0 <= i < s.asks@.len() ==> #[trigger] s.asks@[i] == level_info_v(
                                b.asks_v()[i],
                            )
                        &&& s.sequence_number == b.last_sequence_number
                    },
                    Option::None => false,
                },
                None => true,
            },
    {
        let sym = <String as StringExecFns>::from_str(symbol);
        match find_symbol(&self.order_books, &sym) {
            Some(k) => {
                proof {
                    lemma_sym_index_at(self.order_books@, sym@, k as int);
                }
                Some(self.order_books[k].1.get_order_book_snapshot(max_levels))
            },
            None => None,
        }
    }

    /// Best bid and ask of a symbol's book, if registered.
    pub fn get_best_bid_ask(&self, symbol: &str) -> (r: Option<(Option<Price>, Option<Price>)>)
        requires
            self.wf(),
        ensures
            match self.book_of(symbol@) {
                Option::Some(b) => r == Option::Some(
                    (
                        crate::model::best_price(b.bids_v()),
                        crate::model::best_price(b.asks_v()),
                    ),
                ),
                Option::None => r is None,
            },
    {
        let sym = <String as StringExecFns>::from_str(symbol);
        match find_symbol(&self.order_books, &sym) {
            Some(k) => {
                proof {
                    lemma_sym_index_at(self.order_books@, sym@, k as int);
                }
                Some((self.order_books[k].1.get_best_bid(), self.order_books[k].1.get_best_ask()))
            },
            None => None,
        }
    }

    /// The registered symbols, in order of first use.
    pub fn get_symbols(&self) -> (r: Vec<String>)
        ensures
            r@.len() == self.order_books@.len(),
            forall|i: int|
                0 <= i < r@.len() ==> (#[trigger] r@[i])@ == self.order_books@[i].0@,
    {
        let mut out: Vec<String> = Vec::new();
        let mut i: usize = 0;
        while i < self.order_books.len()
            invariant
                0 <= i <= self.order_books@.len(),
                out@.len() == i,
                forall|m: int|
                    0 <= m < i ==> (#[trigger] out@[m])@ == self.order_books@[m].0@,
            decreases self.order_books@.len() - i,
        {
            out.push(self.order_books[i].0.clone());
            i = i + 1;
        }
        out
    }
}

impl Default for MatchingEngine {
    fn default() -> (r: Self)
        ensures
            r.wf(),
            r.order_books@.len() == 0,
    {
        MatchingEngine::new()
    }
}

/// If position `k` holds the first occurrence of a symbol, the model
/// index agrees.
proof fn lemma_sym_index_at(s: Seq<(String, OrderBook)>, sym: Seq<char>, k: int)
    requires
        0 <= k < s.len(),
        s[k].0@ == sym,
        forall|m: int| 0 <= m < k ==> (#[trigger] s[m]).0@ != sym,
    ensures
        sym_index(s, sym) == k,
        has_sym(s, sym),
    decreases k,
{
    if k == 0 {
    } else {
        assert(s[0].0@ != sym);
        assert(s.drop_first()[k - 1] == s[k]);
        assert forall|m: int| 0 <= m < k - 1 implies (#[trigger] s.drop_first()[m]).0@ != sym by {
            assert(s.drop_first()[m] == s[m + 1]);
        }
        lemma_sym_index_at(s.drop_first(), sym, k - 1);
    }
}

/// First registry entry whose symbol matches, if any.
fn find_symbol(s: &Vec<(String, OrderBook)>, sym: &String) -> (r: Option<usize>)
    ensures
        match r {
            Some(k) => k < s@.len() && s@[k as int].0@ == sym@ && (forall|m: int|
                0 <= m < k ==> (#[trigger] s@[m]).0@ != sym@) && sym_index(s@, sym@) == k
                && has_sym(s@, sym@),
            None => !has_sym(s@, sym@),
        },
{
    let mut k: usize = 0;
    while k < s.len()
        invariant
            0 <= k <= s@.len(),
            forall|m: int| 0 <= m < k ==> (#[trigger] s@[m]).0@ != sym@,
        decreases s@.len() - k,
    {
        if s[k].0 == *sym {
            proof {
                lemma_sym_index_at(s@, sym@, k as int);
            }
            return Some(k);
        }
        k = k + 1;
    }
    None
}

} // verus!
