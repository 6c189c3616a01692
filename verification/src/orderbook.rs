//! The order book: two sorted ladders of FIFO price levels, an index
//! from order identifier to ladder side and price, ingest statistics
//! and the sequence counter. All mutating operations keep the book
//! well formed: levels non-empty with correct cached totals, ladders
//! strictly sorted best price first, the book never crossed at rest,
//! and the index in exact correspondence with the resting orders.

use vstd::prelude::*;
use crate::external;
use crate::model::{
    best_price, better, can_trade, cancel_ladder, consume, count_loc, crosses,
    eligible_qty, fills, find_order, insert_order, ladder_count, ladder_has,
    ladder_has_at, ladder_ok, ladder_total, lemma_cancel_absent, lemma_cancel_at,
    lemma_cancel_ladder_props, lemma_consume_exhausts, lemma_consume_fills, lemma_consume_front,
    lemma_count_loc_has, lemma_count_loc_push, lemma_count_loc_remove,
    lemma_eligible_nonneg, lemma_eligible_prefix, lemma_fills_props, lemma_insert_at,
    lemma_insert_order_count, lemma_insert_order_front, lemma_insert_order_has_at,
    lemma_insert_order_new_at, lemma_insert_order_ok, lemma_insert_order_total,
    lemma_ladder_count_has, lemma_ladder_count_nonneg, lemma_ladder_total_nonneg,
    lemma_ladder_total_split, lemma_ladder_total_take_last, lemma_pop_head_count,
    lemma_pop_head_has_at, lemma_pop_head_ok, lemma_pop_head_total, lemma_reduce_head_count,
    lemma_reduce_head_has_at, lemma_reduce_head_ok, lemma_reduce_head_total, lemma_remove_id_at,
    lemma_remove_id_props, lemma_sum_rem_nonneg, lemma_sum_rem_push, lemma_sum_rem_remove,
    lemma_sum_rem_update, level_has, level_info_v, level_ok, min_q, order_ok, pop_head,
    reduce_head, rests, side_of, singleton_level, sum_fills, sum_rem, with_remaining, FillV,
    LevelV, OrderLoc,
};
use crate::model::{
    effective_limit, lemma_count_loc_nonneg, lemma_count_loc_two, lemma_has_at_implies_has,
    counts_le, lemma_counts_le_refl, lemma_level_le_total, lemma_locs_sub_refl,
    lemma_locs_sub_remove, lemma_sum_fills_bounds, lemma_sum_fills_push, locs_sub,
    match_rest_outcome, modified_order, remove_id_orders, replace_price, replace_qty,
    trade_matches,
};
use crate::types::{
    bump, modify_stats_chain, sat_add, LevelInfo, MarketDataStats, Order, OrderBookError,
    OrderBookSnapshot, OrderId, OrderType, Price, Quantity, Side, Timestamp, Trade,
};

verus! {

/// One price level: a FIFO queue of resting orders and the cached sum
/// of their remaining quantities.
#[derive(Debug)]
pub struct PriceLevel {
    pub price: Price,
    pub orders: Vec<Order>,
    pub total_quantity: Quantity,
}

impl View for PriceLevel {
    type V = LevelV;

    open spec fn view(&self) -> LevelV {
        LevelV { price: self.price, orders: self.orders@ }
    }
}

impl PriceLevel {
    /// This level summarised: its price, its aggregate quantity and
    /// how many orders rest at it.
    pub fn get_level_info(&self) -> (r: LevelInfo)
        requires
            self.total_quantity == sum_rem(self.orders@),
        ensures
            r == level_info_v(self@),
    {
        LevelInfo {
            price: self.price,
            quantity: self.total_quantity,
            order_count: self.orders.len(),
        }
    }
}

pub struct OrderBook {
    /// Bid ladder, highest price first.
    pub bids: Vec<PriceLevel>,
    /// Ask ladder, lowest price first.
    pub asks: Vec<PriceLevel>,
    /// Index of resting orders: identifier, side and level price.
    pub orders: Vec<OrderLoc>,
    pub stats: MarketDataStats,
    pub last_sequence_number: u64,
    pub is_initialized: bool,
    pub day_reset_hour: u8,
    pub day_reset_minute: u8,
    pub last_day_reset: Timestamp,
}

/// The ghost view of a ladder of levels.
pub open spec fn levels_v(levels: Seq<PriceLevel>) -> Seq<LevelV> {
    levels.map_values(|l: PriceLevel| l@)
}

/// Every level's cached total equals the sum of its orders.
pub open spec fn levels_cached(levels: Seq<PriceLevel>) -> bool {
    forall|i: int|
        0 <= i < levels.len() ==> (#[trigger] levels[i]).total_quantity == sum_rem(
            levels[i].orders@,
        )
}

impl OrderBook {
    pub open spec fn bids_v(self) -> Seq<LevelV> {
        levels_v(self.bids@)
    }

    pub open spec fn asks_v(self) -> Seq<LevelV> {
        levels_v(self.asks@)
    }

    pub open spec fn ladder_v(self, is_bid: bool) -> Seq<LevelV> {
        if is_bid {
            self.bids_v()
        } else {
            self.asks_v()
        }
    }

    /// Every level's cached total equals the sum of its orders.
    pub open spec fn totals_cached(self) -> bool {
        levels_cached(self.bids@) && levels_cached(self.asks@)
    }

    /// The resting order with this identifier, whichever side holds
    /// it.
    pub open spec fn find_resting(self, id: u128) -> Order {
        if ladder_has(self.bids_v(), id) {
            find_order(self.bids_v(), id)
        } else {
            find_order(self.asks_v(), id)
        }
    }

    /// The book is never crossed at rest.
    pub open spec fn uncrossed(self) -> bool {
        self.bids_v().len() > 0 && self.asks_v().len() > 0 ==> self.bids_v()[0].price
            < self.asks_v()[0].price
    }

    /// How many resting orders carry this identifier, both sides.
    pub open spec fn book_count(self, id: u128) -> int {
        ladder_count(self.bids_v(), id) + ladder_count(self.asks_v(), id)
    }

    pub open spec fn book_has_id(self, id: u128) -> bool {
        ladder_has(self.bids_v(), id) || ladder_has(self.asks_v(), id)
    }

    /// An index entry points at a level that really holds its order.
    pub open spec fn loc_ok(self, loc: OrderLoc) -> bool {
        ladder_has_at(self.ladder_v(loc.side == Side::Buy), loc.id, loc.price)
    }

    /// The index corresponds exactly to the resting orders: each
    /// identifier rests at most once, the index holds it exactly as
    /// often as the ladders do, and each entry locates its order.
    pub open spec fn index_ok(self) -> bool {
        &&& forall|id: u128|
            #![trigger count_loc(self.orders@, id)]
            #![trigger ladder_count(self.bids_v(), id)]
            #![trigger ladder_count(self.asks_v(), id)]
            count_loc(self.orders@, id) == self.book_count(id) && self.book_count(id) <= 1
        &&& forall|k: int| 0 <= k < self.orders@.len() ==> self.loc_ok(#[trigger] self.orders@[k])
    }

    pub open spec fn total_resting(self) -> int {
        ladder_total(self.bids_v()) + ladder_total(self.asks_v())
    }

    pub open spec fn wf(self) -> bool {
        &&& ladder_ok(self.bids_v(), true)
        &&& ladder_ok(self.asks_v(), false)
        &&& self.totals_cached()
        &&& self.uncrossed()
        &&& self.total_resting() <= u64::MAX
        &&& self.index_ok()
    }

    /// A book holding no orders, with zeroed statistics.
    pub open spec fn fresh(self) -> bool {
        &&& self.bids@.len() == 0
        &&& self.asks@.len() == 0
        &&& self.orders@.len() == 0
        &&& self.stats == MarketDataStats::spec_zeroed()
        &&& self.last_sequence_number == 0
        &&& !self.is_initialized
    }

    proof fn lemma_empty_book_wf(self)
        requires
            self.bids@.len() == 0,
            self.asks@.len() == 0,
            self.orders@.len() == 0,
        ensures
            self.wf(),
            self.bids_v().len() == 0,
            self.asks_v().len() == 0,
    {
        assert(self.bids_v() =~= Seq::<LevelV>::empty());
        assert(self.asks_v() =~= Seq::<LevelV>::empty());
        assert(self.orders@ =~= Seq::<OrderLoc>::empty());
        assert forall|id: u128|
            count_loc(self.orders@, id) == self.book_count(id) && self.book_count(id) <= 1 by {
            assert(count_loc(self.orders@, id) == 0);
            assert(ladder_count(self.bids_v(), id) == 0);
            assert(ladder_count(self.asks_v(), id) == 0);
        }
    }

    pub fn new() -> (r: Self)
        ensures
            r.wf(),
            r.fresh(),
    {
        let r = OrderBook {
            bids: Vec::new(),
            asks: Vec::new(),
            orders: Vec::new(),
            stats: MarketDataStats::zeroed(),
            last_sequence_number: 0,
            is_initialized: false,
            day_reset_hour: 15,
            day_reset_minute: 59,
            last_day_reset: external::now_micros(),
        };
        proof {
            r.lemma_empty_book_wf();
        }
        r
    }

    pub fn set_day_reset_time(&mut self, hour: u8, minute: u8)
        ensures
            *final(self) == (OrderBook {
                day_reset_hour: hour,
                day_reset_minute: minute,
                ..*old(self)
            }),
    {
        self.day_reset_hour = hour;
        self.day_reset_minute = minute;
    }

    /// Number of orders resting on the book (the index's size).
    pub fn size(&self) -> (r: usize)
        ensures
            r == self.orders@.len(),
    {
        self.orders.len()
    }

    pub fn get_best_bid(&self) -> (r: Option<Price>)
        ensures
            r == best_price(self.bids_v()),
    {
        if self.bids.len() > 0 {
            Some(self.bids[0].price)
        } else {
            None
        }
    }

    pub fn get_best_ask(&self) -> (r: Option<Price>)
        ensures
            r == best_price(self.asks_v()),
    {
        if self.asks.len() > 0 {
            Some(self.asks[0].price)
        } else {
            None
        }
    }

    pub fn get_market_data_stats(&self) -> (r: &MarketDataStats)
        ensures
            *r == self.stats,
    {
        &self.stats
    }

    pub fn reset_market_data_stats(&mut self)
        ensures
            *final(self) == (OrderBook { stats: MarketDataStats::spec_zeroed(), ..*old(self) }),
    {
        self.stats.reset();
    }

    pub fn is_initialized(&self) -> (r: bool)
        ensures
            r == self.is_initialized,
    {
        self.is_initialized
    }

    pub fn get_last_sequence_number(&self) -> (r: u64)
        ensures
            r == self.last_sequence_number,
    {
        self.last_sequence_number
    }

    /// Total resting quantity over both ladders.
    pub fn total_resting_quantity(&self) -> (r: u64)
        requires
            self.wf(),
        ensures
            r == self.total_resting(),
    {
        proof {
            lemma_ladder_total_nonneg(self.bids_v());
            lemma_ladder_total_nonneg(self.asks_v());
        }
        let mut sum: u64 = 0;
        let mut i: usize = 0;
        while i < self.bids.len()
            invariant
                self.wf(),
                0 <= i <= self.bids@.len(),
                sum == ladder_total(self.bids_v().take(i as int)),
            decreases self.bids@.len() - i,
        {
            proof {
                lemma_ladder_total_split(self.bids_v(), i as int);
                lemma_ladder_total_split(self.bids_v(), i + 1);
                lemma_ladder_total_nonneg(self.bids_v().skip(i + 1));
                lemma_ladder_total_nonneg(self.asks_v());
                assert(self.bids_v().take(i + 1).drop_last() =~= self.bids_v().take(i as int));
                lemma_ladder_total_take_last(self.bids_v(), i as int);
                assert(self.bids_v()[i as int].orders == self.bids@[i as int].orders@);
            }
            sum = sum + self.bids[i].total_quantity;
            i = i + 1;
        }
        proof {
            assert(self.bids_v().take(self.bids@.len() as int) =~= self.bids_v());
        }
        let ghost bid_total = ladder_total(self.bids_v());
        let mut j: usize = 0;
        while j < self.asks.len()
            invariant
                self.wf(),
                0 <= j <= self.asks@.len(),
                bid_total == ladder_total(self.bids_v()),
                sum == bid_total + ladder_total(self.asks_v().take(j as int)),
            decreases self.asks@.len() - j,
        {
            proof {
                lemma_ladder_total_split(self.asks_v(), j as int);
                lemma_ladder_total_split(self.asks_v(), j + 1);
                lemma_ladder_total_nonneg(self.asks_v().skip(j + 1));
                lemma_ladder_total_nonneg(self.bids_v());
                assert(self.asks_v().take(j + 1).drop_last() =~= self.asks_v().take(j as int));
                lemma_ladder_total_take_last(self.asks_v(), j as int);
                assert(self.asks_v()[j as int].orders == self.asks@[j as int].orders@);
            }
            sum = sum + self.asks[j].total_quantity;
            j = j + 1;
        }
        proof {
            assert(self.asks_v().take(self.asks@.len() as int) =~= self.asks_v());
        }
        sum
    }

    /// Up to `max_levels` best levels of each side, best first, with
    /// the current sequence number.
    pub fn get_order_book_snapshot(&self, max_levels: usize) -> (r: OrderBookSnapshot)
        requires
            self.wf(),
        ensures
            r.bids@.len() == min_q(max_levels as int, self.bids_v().len() as int),
            r.asks@.len() == min_q(max_levels as int, self.asks_v().len() as int),
            forall|i: int|
                0 <= i < r.bids@.len() ==> #[trigger] r.bids@[i] == level_info_v(self.bids_v()[i]),
            forall|i: int|
                0 <= i < r.asks@.len() ==> #[trigger] r.asks@[i] == level_info_v(self.asks_v()[i]),
            r.sequence_number == self.last_sequence_number,
    {
        let mut bids: Vec<LevelInfo> = Vec::new();
        let mut asks: Vec<LevelInfo> = Vec::new();
        let nb = if max_levels < self.bids.len() {
            max_levels
        } else {
            self.bids.len()
        };
        let na = if max_levels < self.asks.len() {
            max_levels
        } else {
            self.asks.len()
        };
        let mut i: usize = 0;
        while i < nb
            invariant
                self.wf(),
                nb <= self.bids@.len(),
                0 <= i <= nb,
                bids@.len() == i,
                forall|k: int|
                    0 <= k < i ==> #[trigger] bids@[k] == level_info_v(self.bids_v()[k]),
            decreases nb - i,
        {
            proof {
                assert(self.bids_v()[i as int] == self.bids@[i as int]@);
            }
            bids.push(self.bids[i].get_level_info());
            i = i + 1;
        }
        let mut j: usize = 0;
        while j < na
            invariant
                self.wf(),
                na <= self.asks@.len(),
                0 <= j <= na,
                asks@.len() == j,
                forall|k: int|
                    0 <= k < j ==> #[trigger] asks@[k] == level_info_v(self.asks_v()[k]),
            decreases na - j,
        {
            proof {
                assert(self.asks_v()[j as int] == self.asks@[j as int]@);
            }
            asks.push(self.asks[j].get_level_info());
            j = j + 1;
        }
        OrderBookSnapshot {
            bids,
            asks,
            timestamp: external::now_micros(),
            sequence_number: self.last_sequence_number,
        }
    }

    /// What a successful `add_order` does to the book. A FillOrKill
    /// with less crossing liquidity than its quantity changes nothing
    /// and yields no trades. Otherwise the incoming quantity executes
    /// the modelled fills against the opposite ladder, and the
    /// residual rests on the own ladder exactly for the types that
    /// rest.
    pub open spec fn add_outcome(
        prev: OrderBook,
        post: OrderBook,
        order: Order,
        trades: Seq<Trade>,
    ) -> bool {
        OrderBook::add_outcome_v(prev.bids_v(), prev.asks_v(), prev.orders@, post, order, trades)
    }

    /// `add_outcome` over the previous book's views alone, so that it
    /// can also describe a submission against a book just created.
    pub open spec fn add_outcome_v(
        bids0: Seq<LevelV>,
        asks0: Seq<LevelV>,
        idx0: Seq<OrderLoc>,
        post: OrderBook,
        order: Order,
        trades: Seq<Trade>,
    ) -> bool {
        let b = order.side == Side::Buy;
        let limit = effective_limit(order);
        let opp0 = if b {
            asks0
        } else {
            bids0
        };
        let same0 = if b {
            bids0
        } else {
            asks0
        };
        let fs = fills(opp0, b, limit, order.quantity as int);
        let traded = sum_fills(fs);
        if order.order_type == OrderType::FillOrKill && eligible_qty(opp0, b, limit)
            < order.quantity {
            &&& trades.len() == 0
            &&& post.bids_v() == bids0
            &&& post.asks_v() == asks0
            &&& post.orders@ == idx0
        } else {
            &&& trades.len() == fs.len()
            &&& forall|i: int|
                0 <= i < fs.len() ==> trade_matches(#[trigger] trades[i], fs[i], order.id, b)
            &&& post.ladder_v(!b) == consume(opp0, b, limit, order.quantity as int)
            &&& if rests(order.order_type) && traded < order.quantity {
                &&& post.ladder_v(b) == insert_order(
                    same0,
                    with_remaining(order, (order.quantity - traded) as u64),
                    b,
                )
                &&& post.orders@.len() > 0
                &&& post.orders@.last() == (OrderLoc {
                    id: order.id,
                    side: order.side,
                    price: order.price,
                })
                &&& locs_sub(post.orders@.drop_last(), idx0)
                &&& (traded == 0 ==> post.orders@ == idx0.push(
                    OrderLoc { id: order.id, side: order.side, price: order.price },
                ))
            } else {
                &&& post.ladder_v(b) == same0
                &&& locs_sub(post.orders@, idx0)
                &&& (traded == 0 ==> post.orders@ == idx0)
            }
        }
    }

    /// Re-establish well-formedness after the matching phase alone.
    proof fn lemma_post_match(self, prev: OrderBook, order: Order, b: bool, limit: u64)
        requires
            prev.wf(),
            b == (order.side == Side::Buy),
            0 < order.quantity,
            prev.total_resting() + order.quantity <= u64::MAX,
            !ladder_has(prev.bids_v(), order.id),
            !ladder_has(prev.asks_v(), order.id),
            count_loc(prev.orders@, order.id) == 0,
            self.ladder_v(!b) == consume(prev.ladder_v(!b), b, limit, order.quantity as int),
            self.ladder_v(b) == prev.ladder_v(b),
            self.totals_cached(),
            ladder_ok(self.ladder_v(!b), !b),
            forall|x: u128|
                #[trigger] count_loc(self.orders@, x) == count_loc(prev.orders@, x) - (
                ladder_count(prev.ladder_v(!b), x) - ladder_count(self.ladder_v(!b), x)),
            counts_le(self.ladder_v(!b), prev.ladder_v(!b)),
            locs_sub(self.orders@, prev.orders@),
            forall|m: int|
                0 <= m < self.orders@.len() && (#[trigger] self.orders@[m]).side == side_of(!b)
                    ==> ladder_has_at(
                    self.ladder_v(!b),
                    self.orders@[m].id,
                    self.orders@[m].price,
                ),
        ensures
            self.wf(),
            self.total_resting() == prev.total_resting() - sum_fills(
                fills(prev.ladder_v(!b), b, limit, order.quantity as int),
            ),
            !ladder_has(self.bids_v(), order.id),
            !ladder_has(self.asks_v(), order.id),
            count_loc(self.orders@, order.id) == 0,
    {
        let opp0 = prev.ladder_v(!b);
        let opp1 = self.ladder_v(!b);
        let fs = fills(opp0, b, limit, order.quantity as int);
        lemma_consume_fills(opp0, !b, b, limit, order.quantity as int);
        lemma_eligible_nonneg(opp0, b, limit);
        lemma_ladder_total_nonneg(opp1);
        lemma_ladder_total_nonneg(self.ladder_v(b));
        lemma_consume_front(opp0, !b, b, limit, order.quantity as int);
        if self.bids_v().len() > 0 && self.asks_v().len() > 0 {
            if b {
                assert(self.bids_v() == prev.bids_v());
                assert(!better(false, self.asks_v()[0].price, prev.asks_v()[0].price));
            } else {
                assert(self.asks_v() == prev.asks_v());
                assert(!better(true, self.bids_v()[0].price, prev.bids_v()[0].price));
            }
        }
        assert forall|id: u128|
            count_loc(self.orders@, id) == self.book_count(id) && self.book_count(id) <= 1 by {
            lemma_ladder_count_nonneg(opp1, id);
            assert(counts_le(opp1, opp0));
            assert(ladder_count(opp1, id) <= ladder_count(opp0, id));
            assert(count_loc(prev.orders@, id) == prev.book_count(id));
            assert(count_loc(self.orders@, id) == count_loc(prev.orders@, id) - (ladder_count(
                opp0,
                id,
            ) - ladder_count(opp1, id)));
        }
        assert forall|k: int| 0 <= k < self.orders@.len() implies self.loc_ok(
            #[trigger] self.orders@[k],
        ) by {
            let loc = self.orders@[k];
            assert(prev.orders@.contains(loc));
            let k0 = choose|k0: int| 0 <= k0 < prev.orders@.len() && prev.orders@[k0] == loc;
            assert(prev.loc_ok(prev.orders@[k0]));
            if (loc.side == Side::Buy) == b {
                assert(self.ladder_v(b) == prev.ladder_v(b));
            } else {
                assert(loc.side == side_of(!b));
            }
        }
        lemma_ladder_count_has(prev.bids_v(), order.id);
        lemma_ladder_count_has(prev.asks_v(), order.id);
        lemma_ladder_count_has(self.bids_v(), order.id);
        lemma_ladder_count_has(self.asks_v(), order.id);
        assert(counts_le(opp1, opp0));
        assert(ladder_count(opp1, order.id) <= ladder_count(opp0, order.id));
        lemma_ladder_count_nonneg(opp1, order.id);
    }

    /// Re-establish well-formedness after the residual rests.
    proof fn lemma_post_rest(self, mid: OrderBook, o: Order, b: bool)
        requires
            mid.wf(),
            b == (o.side == Side::Buy),
            order_ok(o, o.price, b),
            o.price > 0,
            count_loc(mid.orders@, o.id) == 0,
            !ladder_has(mid.bids_v(), o.id),
            !ladder_has(mid.asks_v(), o.id),
            mid.total_resting() + o.remaining_quantity <= u64::MAX,
            self.ladder_v(b) == insert_order(mid.ladder_v(b), o, b),
            self.ladder_v(!b) == mid.ladder_v(!b),
            self.totals_cached(),
            self.orders@ == mid.orders@.push(OrderLoc { id: o.id, side: o.side, price: o.price }),
            mid.ladder_v(!b).len() > 0 ==> !crosses(b, o.price, mid.ladder_v(!b)[0].price),
        ensures
            self.wf(),
            self.total_resting() == mid.total_resting() + o.remaining_quantity,
    {
        let same0 = mid.ladder_v(b);
        let same1 = self.ladder_v(b);
        let newloc = OrderLoc { id: o.id, side: o.side, price: o.price };
        lemma_insert_order_ok(same0, o, b);
        lemma_insert_order_total(same0, o, b);
        lemma_insert_order_front(same0, o, b);
        lemma_insert_order_new_at(same0, o, b);
        lemma_ladder_total_nonneg(self.ladder_v(!b));
        lemma_ladder_total_nonneg(same0);
        if self.bids_v().len() > 0 && self.asks_v().len() > 0 {
            if b {
                assert(self.asks_v() == mid.asks_v());
                assert(mid.asks_v()[0].price > o.price);
                if same0.len() > 0 && better(true, same0[0].price, o.price) {
                    assert(same1[0].price == same0[0].price);
                } else {
                    assert(same1[0].price == o.price);
                }
            } else {
                assert(self.bids_v() == mid.bids_v());
                assert(mid.bids_v()[0].price < o.price);
                if same0.len() > 0 && better(false, same0[0].price, o.price) {
                    assert(same1[0].price == same0[0].price);
                } else {
                    assert(same1[0].price == o.price);
                }
            }
        }
        assert forall|id: u128|
            count_loc(self.orders@, id) == self.book_count(id) && self.book_count(id) <= 1 by {
            lemma_insert_order_count(same0, o, b, id);
            lemma_count_loc_push(mid.orders@, newloc, id);
            assert(count_loc(mid.orders@, id) == mid.book_count(id));
            if id == o.id {
                lemma_ladder_count_has(mid.bids_v(), id);
                lemma_ladder_count_has(mid.asks_v(), id);
            }
        }
        assert forall|k: int| 0 <= k < self.orders@.len() implies self.loc_ok(
            #[trigger] self.orders@[k],
        ) by {
            if k < mid.orders@.len() {
                let loc = mid.orders@[k];
                assert(self.orders@[k] == loc);
                assert(mid.loc_ok(loc));
                if (loc.side == Side::Buy) == b {
                    lemma_insert_order_has_at(same0, o, b, loc.id, loc.price);
                } else {
                    assert(self.ladder_v(!b) == mid.ladder_v(!b));
                }
            } else {
                assert(self.orders@[k] == newloc);
                assert((newloc.side == Side::Buy) == b);
                assert(ladder_has_at(same1, o.id, o.price));
            }
        }
    }

    /// Submit an order. Fails, leaving the book untouched, with
    /// `OrderAlreadyExists` on an indexed identifier, `InvalidPrice`
    /// on a zero price for a non-Market order, and `InvalidQuantity`
    /// on a zero quantity. Otherwise matches per the order's type and
    /// returns the trades produced, in matching order.
    pub fn add_order(&mut self, order: Order) -> (r: Result<Vec<Trade>, OrderBookError>)
        requires
            old(self).wf(),
            order.remaining_quantity == order.quantity,
            old(self).total_resting() + order.quantity <= u64::MAX,
        ensures
            final(self).wf(),
            final(self).last_sequence_number == old(self).last_sequence_number,
            final(self).is_initialized == old(self).is_initialized,
            final(self).total_resting() <= old(self).total_resting() + order.quantity,
            match r {
                Result::Ok(trades) => {
                    &&& !old(self).book_has_id(order.id)
                    &&& order.price > 0 || order.order_type == OrderType::Market
                    &&& order.quantity > 0
                    &&& OrderBook::add_outcome(*old(self), *final(self), order, trades@)
                    &&& exists|e: u64|
                        final(self).stats == (MarketDataStats {
                            new_orders: bump(old(self).stats.new_orders),
                            ..(#[trigger] old(self).stats.with_latency(e))
                        })
                },
                Result::Err(e) => {
                    &&& *final(self) == *old(self)
                    &&& match e {
                        OrderBookError::OrderAlreadyExists { order_id } => order_id == order.id
                            && old(self).book_has_id(order.id),
                        OrderBookError::InvalidPrice { price } => price == order.price && !old(
                            self,
                        ).book_has_id(order.id) && order.price == 0 && order.order_type
                            != OrderType::Market,
                        OrderBookError::InvalidQuantity { quantity } => quantity == order.quantity
                            && !old(self).book_has_id(order.id) && (order.price > 0
                            || order.order_type == OrderType::Market) && order.quantity == 0,
                        _ => false,
                    }
                },
            },
    {
        let t0 = external::now_micros();
        let oid = order.id;
        let oprice = order.price;
        let oside = order.side;
        let oqty = order.quantity;
        match find_loc(&self.orders, oid) {
            Some(_) => {
                proof {
                    lemma_count_loc_has(self.orders@, oid);
                    lemma_ladder_count_has(self.bids_v(), oid);
                    lemma_ladder_count_has(self.asks_v(), oid);
                }
                return Err(OrderBookError::OrderAlreadyExists { order_id: oid });
            },
            None => {
                proof {
                    lemma_count_loc_has(self.orders@, oid);
                    lemma_ladder_count_has(self.bids_v(), oid);
                    lemma_ladder_count_has(self.asks_v(), oid);
                    lemma_ladder_count_nonneg(self.bids_v(), oid);
                    lemma_ladder_count_nonneg(self.asks_v(), oid);
                }
            },
        }
        let is_market = match order.order_type {
            OrderType::Market => true,
            _ => false,
        };
        if oprice == 0 && !is_market {
            return Err(OrderBookError::InvalidPrice { price: oprice });
        }
        if oqty == 0 {
            return Err(OrderBookError::InvalidQuantity { quantity: oqty });
        }
        let is_buy = match oside {
            Side::Buy => true,
            Side::Sell => false,
        };
        let limit = if is_market {
            if is_buy {
                u64::MAX
            } else {
                0
            }
        } else {
            oprice
        };
        proof {
            assert(limit == effective_limit(order));
        }
        let ghost prev = *self;
        let mut trades: Vec<Trade> = Vec::new();
        let is_fok = match order.order_type {
            OrderType::FillOrKill => true,
            _ => false,
        };
        let mut fok_reject = false;
        if is_fok {
            proof {
                lemma_ladder_total_nonneg(prev.bids_v());
                lemma_ladder_total_nonneg(prev.asks_v());
            }
            let avail = if is_buy {
                eligible_quantity(&self.asks, true, limit)
            } else {
                eligible_quantity(&self.bids, false, limit)
            };
            if avail < oqty {
                fok_reject = true;
            }
        }
        if !fok_reject {
            proof {
                let b = is_buy;
                let opp0 = prev.ladder_v(!b);
                assert forall|x: u128| #[trigger] count_loc(prev.orders@, x) <= 1 by {
                    assert(count_loc(prev.orders@, x) == prev.book_count(x));
                    lemma_ladder_count_nonneg(prev.bids_v(), x);
                    lemma_ladder_count_nonneg(prev.asks_v(), x);
                }
                assert forall|x: u128|
                    ladder_count(opp0, x) <= #[trigger] count_loc(prev.orders@, x) by {
                    assert(count_loc(prev.orders@, x) == prev.book_count(x));
                    lemma_ladder_count_nonneg(prev.ladder_v(b), x);
                }
                assert forall|m: int|
                    0 <= m < prev.orders@.len() && (#[trigger] prev.orders@[m]).side == side_of(
                        !b,
                    ) implies ladder_has_at(opp0, prev.orders@[m].id, prev.orders@[m].price) by {
                    assert(prev.loc_ok(prev.orders@[m]));
                }
                assert forall|m: int|
                    0 <= m < prev.orders@.len() && (#[trigger] prev.orders@[m]).side == side_of(
                        b,
                    ) implies ladder_count(opp0, prev.orders@[m].id) == 0 by {
                    let loc = prev.orders@[m];
                    assert(prev.loc_ok(loc));
                    lemma_has_at_implies_has(prev.ladder_v(b), loc.id, loc.price);
                    lemma_ladder_count_has(prev.ladder_v(b), loc.id);
                    lemma_ladder_count_nonneg(opp0, loc.id);
                    assert(count_loc(prev.orders@, loc.id) == prev.book_count(loc.id));
                }
            }
            let traded = if is_buy {
                match_levels(&mut self.asks, &mut self.orders, oid, true, limit, oqty, &mut trades)
            } else {
                match_levels(&mut self.bids, &mut self.orders, oid, false, limit, oqty, &mut trades)
            };
            let ghost mid = *self;
            proof {
                mid.lemma_post_match(prev, order, is_buy, limit);
                lemma_fills_props(prev.ladder_v(!is_buy), !is_buy, is_buy, limit, oqty as int);
                lemma_sum_fills_bounds(
                    fills(prev.ladder_v(!is_buy), is_buy, limit, oqty as int),
                );
            }
            let rem = oqty - traded;
            let rests_flag = match order.order_type {
                OrderType::Limit => true,
                OrderType::GoodTillCancel => true,
                OrderType::GoodForDay => true,
                _ => false,
            };
            if rests_flag && rem > 0 {
                proof {
                    let b = is_buy;
                    lemma_consume_fills(prev.ladder_v(!b), !b, is_buy, limit, oqty as int);
                    lemma_consume_exhausts(prev.ladder_v(!b), !b, is_buy, limit, oqty as int);
                    lemma_ladder_total_nonneg(mid.ladder_v(!b));
                    lemma_ladder_total_nonneg(prev.ladder_v(!b));
                    lemma_ladder_total_nonneg(prev.ladder_v(b));
                }
                let mut rested = order;
                rested.remaining_quantity = rem;
                if is_buy {
                    ladder_rest(&mut self.bids, true, rested);
                } else {
                    ladder_rest(&mut self.asks, false, rested);
                }
                self.orders.push(OrderLoc { id: oid, side: oside, price: oprice });
                proof {
                    self.lemma_post_rest(mid, with_remaining(order, rem), is_buy);
                    lemma_eligible_nonneg(prev.ladder_v(!is_buy), is_buy, limit);
                    assert(self.total_resting() <= prev.total_resting() + order.quantity);
                    assert(self.orders@.drop_last() =~= mid.orders@);
                    assert(locs_sub(mid.orders@, prev.orders@));
                    if sum_fills(fills(prev.ladder_v(!is_buy), is_buy, limit, oqty as int)) == 0 {
                        assert(self.orders@ == prev.orders@.push(
                            OrderLoc { id: order.id, side: order.side, price: order.price },
                        ));
                    }
                }
            } else {
                proof {
                    lemma_consume_fills(prev.ladder_v(!is_buy), !is_buy, is_buy, limit, oqty as int);
                    lemma_eligible_nonneg(prev.ladder_v(!is_buy), is_buy, limit);
                    assert(self.total_resting() <= prev.total_resting() + order.quantity);
                }
            }
        }
        let e = elapsed_since(t0);
        self.stats.total_processing_time = sat_add_u64(self.stats.total_processing_time, e);
        if e > self.stats.max_latency {
            self.stats.max_latency = e;
        }
        if self.stats.min_latency == 0 || e < self.stats.min_latency {
            self.stats.min_latency = e;
        }
        self.stats.new_orders = sat_add_u64(self.stats.new_orders, 1);
        proof {
            assert(final(self).stats == (MarketDataStats {
                new_orders: bump(old(self).stats.new_orders),
                ..old(self).stats.with_latency(e)
            }));
        }
        Ok(trades)
    }

    /// Both ladders after a cancellation, with the statistics folded
    /// once for it.
    pub open spec fn cancelled_state(prev: OrderBook, post: OrderBook, id: u128) -> bool {
        &&& post.bids_v() == cancel_ladder(prev.bids_v(), id)
        &&& post.asks_v() == cancel_ladder(prev.asks_v(), id)
        &&& exists|e: u64| post.stats == #[trigger] prev.stats.after_cancel(e)
    }

    /// What a successful `modify_order` does to the book: under some
    /// fresh identifier and timestamp, the replacement order is
    /// submitted against the book with the original cancelled.
    pub open spec fn modify_outcome(
        prev: OrderBook,
        post: OrderBook,
        order_id: u128,
        new_price: Option<Price>,
        new_quantity: Option<Quantity>,
        trades: Seq<Trade>,
    ) -> bool {
        exists|nid: u128, ts: u64|
            #![trigger modified_order(prev.find_resting(order_id), new_price, new_quantity, nid, ts)]
            {
                let base = prev.find_resting(order_id);
                let ord2 = modified_order(base, new_price, new_quantity, nid, ts);
                let b = base.side == Side::Buy;
                match_rest_outcome(
                    cancel_ladder(prev.ladder_v(!b), order_id),
                    cancel_ladder(prev.ladder_v(b), order_id),
                    post.ladder_v(!b),
                    post.ladder_v(b),
                    ord2,
                    trades,
                )
            }
    }

    /// Remove a resting order from its level, ladder and the index,
    /// deleting the level if it empties; returns the removed order.
    /// Statistics are untouched.
    fn cancel_core(&mut self, order_id: u128) -> (r: Result<Order, OrderBookError>)
        requires
            old(self).wf(),
        ensures
            final(self).wf(),
            final(self).stats == old(self).stats,
            final(self).last_sequence_number == old(self).last_sequence_number,
            final(self).is_initialized == old(self).is_initialized,
            match r {
                Result::Ok(o) => {
                    &&& old(self).book_has_id(order_id)
                    &&& o.id == order_id
                    &&& o == old(self).find_resting(order_id)
                    &&& order_ok(o, o.price, o.side == Side::Buy)
                    &&& final(self).total_resting() == old(self).total_resting()
                        - o.remaining_quantity
                    &&& final(self).bids_v() == cancel_ladder(old(self).bids_v(), order_id)
                    &&& final(self).asks_v() == cancel_ladder(old(self).asks_v(), order_id)
                    &&& exists|k: int|
                        0 <= k < old(self).orders@.len() && (#[trigger] old(self).orders@[k]).id
                            == order_id && (forall|m: int|
                            0 <= m < k ==> (#[trigger] old(self).orders@[m]).id != order_id)
                            && final(self).orders@ == old(self).orders@.remove(k)
                },
                Result::Err(e) => {
                    &&& e == (OrderBookError::OrderNotFound { order_id })
                    &&& !old(self).book_has_id(order_id)
                    &&& *final(self) == *old(self)
                },
            },
    {
        let k = match find_loc(&self.orders, order_id) {
            None => {
                proof {
                    lemma_count_loc_has(self.orders@, order_id);
                    lemma_ladder_count_has(self.bids_v(), order_id);
                    lemma_ladder_count_has(self.asks_v(), order_id);
                }
                return Err(OrderBookError::OrderNotFound { order_id });
            },
            Some(k) => k,
        };
        let loc = self.orders[k];
        proof {
            assert(old(self).loc_ok(loc));
            lemma_count_loc_has(self.orders@, order_id);
            lemma_ladder_count_has(self.bids_v(), order_id);
            lemma_ladder_count_has(self.asks_v(), order_id);
        }
        let is_bid = match loc.side {
            Side::Buy => true,
            Side::Sell => false,
        };
        let o;
        if is_bid {
            proof {
                lemma_has_at_implies_has(old(self).bids_v(), order_id, loc.price);
            }
            o = ladder_excise(&mut self.bids, true, order_id);
            proof {
                lemma_cancel_ladder_props(old(self).bids_v(), order_id, true);
                assert(ladder_count(old(self).asks_v(), order_id) == 0);
                lemma_cancel_absent(old(self).asks_v(), order_id);
            }
        } else {
            proof {
                lemma_has_at_implies_has(old(self).asks_v(), order_id, loc.price);
            }
            o = ladder_excise(&mut self.asks, false, order_id);
            proof {
                lemma_cancel_ladder_props(old(self).asks_v(), order_id, false);
                assert(ladder_count(old(self).bids_v(), order_id) == 0);
                lemma_cancel_absent(old(self).bids_v(), order_id);
            }
        }
        self.orders.remove(k);
        proof {
            self.lemma_post_cancel(*old(self), order_id, k as int, is_bid);
        }
        Ok(o)
    }

    /// Re-establish well-formedness after an excision on one side and
    /// the matching index removal.
    proof fn lemma_post_cancel(self, prev: OrderBook, id: u128, k: int, is_bid: bool)
        requires
            prev.wf(),
            0 <= k < prev.orders@.len(),
            prev.orders@[k].id == id,
            ladder_has(prev.ladder_v(is_bid), id),
            self.ladder_v(is_bid) == cancel_ladder(prev.ladder_v(is_bid), id),
            self.ladder_v(!is_bid) == prev.ladder_v(!is_bid),
            self.totals_cached(),
            self.orders@ == prev.orders@.remove(k),
        ensures
            self.wf(),
            self.bids_v() == cancel_ladder(prev.bids_v(), id),
            self.asks_v() == cancel_ladder(prev.asks_v(), id),
            self.total_resting() == prev.total_resting() - find_order(
                prev.ladder_v(is_bid),
                id,
            ).remaining_quantity,
            prev.find_resting(id) == find_order(prev.ladder_v(is_bid), id),
    {
        let prevl = prev.ladder_v(is_bid);
        let newl = self.ladder_v(is_bid);
        lemma_cancel_ladder_props(prevl, id, is_bid);
        lemma_ladder_count_has(prev.ladder_v(!is_bid), id);
        lemma_ladder_count_nonneg(prev.ladder_v(!is_bid), id);
        lemma_ladder_count_has(prevl, id);
        assert(ladder_count(prev.ladder_v(!is_bid), id) == 0);
        lemma_cancel_absent(prev.ladder_v(!is_bid), id);
        // uncrossed
        let iw = choose|i: int| 0 <= i < prevl.len() && level_has(#[trigger] prevl[i], id);
        assert(prevl.len() > 0);
        if self.bids_v().len() > 0 && self.asks_v().len() > 0 {
            if is_bid {
                assert(!better(true, newl[0].price, prevl[0].price));
            } else {
                assert(!better(false, newl[0].price, prevl[0].price));
            }
        }
        // quantity bound
        lemma_ladder_total_nonneg(newl);
        lemma_ladder_total_nonneg(self.ladder_v(!is_bid));
        assert(order_ok(find_order(prevl, id), find_order(prevl, id).price, is_bid));
        // index correspondence
        assert forall|x: u128|
            count_loc(self.orders@, x) == self.book_count(x) && self.book_count(x) <= 1 by {
            lemma_count_loc_remove(prev.orders@, k, x);
            assert(count_loc(prev.orders@, x) == prev.book_count(x));
        }
        assert forall|m: int| 0 <= m < self.orders@.len() implies self.loc_ok(
            #[trigger] self.orders@[m],
        ) by {
            let m0: int = if m < k {
                m
            } else {
                m + 1
            };
            let loc2 = prev.orders@[m0];
            assert(self.orders@[m] == loc2);
            assert(prev.loc_ok(loc2));
            if loc2.id == id {
                lemma_count_loc_two(prev.orders@, id, if m0 < k {
                    m0
                } else {
                    k
                }, if m0 < k {
                    k
                } else {
                    m0
                });
                lemma_count_loc_nonneg(prev.orders@, id);
                assert(false);
            }
            if (loc2.side == Side::Buy) == is_bid {
                assert(ladder_has_at(prevl, loc2.id, loc2.price));
                assert(ladder_has_at(newl, loc2.id, loc2.price));
            }
        }
    }

    /// Modify a resting order: cancel it, then resubmit it with the
    /// replacement price and quantity under a fresh identifier and
    /// timestamp — the modified order forfeits its time priority. The
    /// trades returned are those the resubmission produces. When the
    /// resubmission is rejected (zero replacement price or quantity,
    /// or an identifier collision) the cancellation stands, as
    /// cancel-then-resubmit semantics imply.
    pub fn modify_order(
        &mut self,
        order_id: OrderId,
        new_price: Option<Price>,
        new_quantity: Option<Quantity>,
    ) -> (r: Result<Vec<Trade>, OrderBookError>)
        requires
            old(self).wf(),
            old(self).book_has_id(order_id) ==> old(self).total_resting() - old(
                self,
            ).find_resting(order_id).remaining_quantity + replace_qty(
                old(self).find_resting(order_id),
                new_quantity,
            ) <= u64::MAX,
        ensures
            final(self).wf(),
            final(self).last_sequence_number == old(self).last_sequence_number,
            match r {
                Result::Ok(trades) => {
                    &&& old(self).book_has_id(order_id)
                    &&& replace_price(old(self).find_resting(order_id), new_price) > 0
                    &&& replace_qty(old(self).find_resting(order_id), new_quantity) > 0
                    &&& OrderBook::modify_outcome(
                        *old(self),
                        *final(self),
                        order_id,
                        new_price,
                        new_quantity,
                        trades@,
                    )
                    &&& modify_stats_chain(old(self).stats, final(self).stats)
                },
                Result::Err(e) => match e {
                    OrderBookError::OrderNotFound { order_id: oid } => oid == order_id && !old(
                        self,
                    ).book_has_id(order_id) && *final(self) == *old(self),
                    OrderBookError::InvalidPrice { price } => {
                        &&& old(self).book_has_id(order_id)
                        &&& price == replace_price(old(self).find_resting(order_id), new_price)
                        &&& price == 0
                        &&& OrderBook::cancelled_state(*old(self), *final(self), order_id)
                    },
                    OrderBookError::InvalidQuantity { quantity } => {
                        &&& old(self).book_has_id(order_id)
                        &&& quantity == replace_qty(
                            old(self).find_resting(order_id),
                            new_quantity,
                        )
                        &&& quantity == 0
                        &&& replace_price(old(self).find_resting(order_id), new_price) > 0
                        &&& OrderBook::cancelled_state(*old(self), *final(self), order_id)
                    },
                    OrderBookError::OrderAlreadyExists { order_id: _ } => {
                        &&& old(self).book_has_id(order_id)
                        &&& OrderBook::cancelled_state(*old(self), *final(self), order_id)
                    },
                    _ => false,
                },
            },
    {
        let ghost prev = *old(self);
        let t0 = external::now_micros();
        let base = match self.cancel_core(order_id) {
            Err(e) => {
                return Err(e);
            },
            Ok(o) => o,
        };
        let ghost base0 = base;
        let e1 = elapsed_since(t0);
        self.stats.total_processing_time = sat_add_u64(self.stats.total_processing_time, e1);
        self.stats.cancellations = sat_add_u64(self.stats.cancellations, 1);
        let ghost mid = *self;
        proof {
            assert(mid.stats == prev.stats.after_cancel(e1));
        }
        let np = match new_price {
            Some(p) => p,
            None => base.price,
        };
        let nq = match new_quantity {
            Some(q) => q,
            None => base.remaining_quantity,
        };
        let nid = external::fresh_order_id();
        let ts = external::now_micros();
        let ord2 = Order {
            id: nid,
            side: base.side,
            order_type: base.order_type,
            price: np,
            quantity: nq,
            remaining_quantity: nq,
            timestamp: ts,
            user_id: base.user_id,
        };
        let ghost ord2g = ord2;
        proof {
            assert(base0 == prev.find_resting(order_id));
            assert(ord2g == modified_order(base0, new_price, new_quantity, nid, ts));
            assert(rests(base0.order_type));
        }
        let trades = match self.add_order(ord2) {
            Err(e) => {
                proof {
                    assert(self.stats == prev.stats.after_cancel(e1));
                }
                return Err(e);
            },
            Ok(t) => t,
        };
        let ghost mid2 = *self;
        let e3 = elapsed_since(t0);
        self.stats.total_processing_time = sat_add_u64(self.stats.total_processing_time, e3);
        self.stats.modifications = sat_add_u64(self.stats.modifications, 1);
        proof {
            let b = base0.side == Side::Buy;
            assert(match_rest_outcome(
                cancel_ladder(prev.ladder_v(!b), order_id),
                cancel_ladder(prev.ladder_v(b), order_id),
                self.ladder_v(!b),
                self.ladder_v(b),
                ord2g,
                trades@,
            ));
            assert(OrderBook::modify_outcome(
                prev,
                *self,
                order_id,
                new_price,
                new_quantity,
                trades@,
            ));
            let e2 = choose|e: u64|
                mid2.stats == (MarketDataStats {
                    new_orders: bump(mid.stats.new_orders),
                    ..(#[trigger] mid.stats.with_latency(e))
                });
            assert(mid2.stats == mid.stats.after_add(e2));
            assert(self.stats == prev.stats.after_cancel(e1).after_add(e2).after_modify_step(e3));
            assert(modify_stats_chain(prev.stats, self.stats));
        }
        Ok(trades)
    }

    /// Cancel a resting order. Fails with `OrderNotFound` when the
    /// identifier is not indexed, leaving the book untouched; on
    /// success the order leaves its level, empty levels are deleted,
    /// and the cancellation counter steps.
    pub fn cancel_order(&mut self, order_id: OrderId) -> (r: Result<(), OrderBookError>)
        requires
            old(self).wf(),
        ensures
            final(self).wf(),
            match r {
                Result::Ok(()) => {
                    &&& old(self).book_has_id(order_id)
                    &&& final(self).bids_v() == cancel_ladder(old(self).bids_v(), order_id)
                    &&& final(self).asks_v() == cancel_ladder(old(self).asks_v(), order_id)
                    &&& exists|k: int|
                        0 <= k < old(self).orders@.len() && (#[trigger] old(self).orders@[k]).id
                            == order_id && (forall|m: int|
                            0 <= m < k ==> (#[trigger] old(self).orders@[m]).id != order_id)
                            && final(self).orders@ == old(self).orders@.remove(k)
                    &&& exists|e: u64|
                        final(self).stats == (MarketDataStats {
                            cancellations: bump(old(self).stats.cancellations),
                            total_processing_time: #[trigger] sat_add(
                                old(self).stats.total_processing_time,
                                e,
                            ),
                            ..old(self).stats
                        })
                    &&& final(self).last_sequence_number == old(self).last_sequence_number
                },
                Result::Err(e) => {
                    &&& e == (OrderBookError::OrderNotFound { order_id })
                    &&& !old(self).book_has_id(order_id)
                    &&& *final(self) == *old(self)
                },
            },
    {
        let t0 = external::now_micros();
        match self.cancel_core(order_id) {
            Ok(_removed) => {
                let e = elapsed_since(t0);
                self.stats.total_processing_time = sat_add_u64(self.stats.total_processing_time, e);
                self.stats.cancellations = sat_add_u64(self.stats.cancellations, 1);
                Ok(())
            },
            Err(err) => Err(err),
        }
    }

    /// Drop every resting order and level and zero the statistics,
    /// keeping the sequence counter.
    pub fn clear_all_orders(&mut self)
        ensures
            final(self).wf(),
            final(self).bids@.len() == 0,
            final(self).asks@.len() == 0,
            final(self).orders@.len() == 0,
            final(self).stats == MarketDataStats::spec_zeroed(),
            final(self).last_sequence_number == old(self).last_sequence_number,
            final(self).is_initialized == old(self).is_initialized,
    {
        self.bids = Vec::new();
        self.asks = Vec::new();
        self.orders = Vec::new();
        self.stats.reset();
        proof {
            self.lemma_empty_book_wf();
        }
    }
}

impl Default for OrderBook {
    fn default() -> (r: Self)
        ensures
            r.wf(),
            r.fresh(),
    {
        OrderBook::new()
    }
}

/// Saturating addition, executable.
fn sat_add_u64(a: u64, b: u64) -> (r: u64)
    ensures
        r == sat_add(a, b),
{
    if a <= u64::MAX - b {
        a + b
    } else {
        u64::MAX
    }
}

/// Microseconds elapsed since `t0`, clamped at zero. The value
/// depends on the clock, so nothing is promised of it.
fn elapsed_since(t0: u64) -> u64 {
    let now = external::now_micros();
    if now >= t0 {
        now - t0
    } else {
        0
    }
}

/// Excise the order with this identifier from a ladder known to hold
/// it, deleting its level if that empties it. Returns the removed
/// order.
fn ladder_excise(levels: &mut Vec<PriceLevel>, is_bid: bool, id: u128) -> (r: Order)
    requires
        ladder_ok(levels_v(old(levels)@), is_bid),
        levels_cached(old(levels)@),
        ladder_has(levels_v(old(levels)@), id),
    ensures
        levels_v(final(levels)@) == cancel_ladder(levels_v(old(levels)@), id),
        levels_cached(final(levels)@),
        r == find_order(levels_v(old(levels)@), id),
{
    let ghost lsv = levels_v(old(levels)@);
    let mut i: usize = 0;
    while i < levels.len()
        invariant
            levels@ == old(levels)@,
            ladder_has(lsv, id),
            lsv == levels_v(levels@),
            ladder_ok(lsv, is_bid),
            levels_cached(levels@),
            0 <= i <= levels@.len(),
            forall|k: int| 0 <= k < i ==> !level_has(#[trigger] lsv[k], id),
        decreases levels@.len() - i,
    {
        proof {
            assert(lsv[i as int] == levels@[i as int]@);
        }
        match find_order_idx(&levels[i].orders, id) {
            Some(j) => {
                proof {
                    assert(levels@[i as int].orders@[j as int].id == id);
                    assert(level_has(lsv[i as int], id));
                    lemma_remove_id_at(lsv[i as int].orders, id, j as int);
                    lemma_cancel_at(lsv, id, i as int);
                    lemma_sum_rem_remove(lsv[i as int].orders, j as int);
                    lemma_sum_rem_nonneg(lsv[i as int].orders.remove(j as int));
                }
                let mut lvl = levels.remove(i);
                let o = lvl.orders.remove(j);
                if lvl.orders.len() > 0 {
                    lvl.total_quantity = lvl.total_quantity - o.remaining_quantity;
                    levels.insert(i, lvl);
                    proof {
                        let l2 = LevelV {
                            price: lsv[i as int].price,
                            orders: remove_id_orders(lsv[i as int].orders, id),
                        };
                        assert(levels@ =~= old(levels)@.update(i as int, levels@[i as int]));
                        assert(levels@[i as int]@ =~= l2);
                        assert(levels_v(levels@) =~= lsv.update(i as int, l2));
                        assert(levels_cached(levels@));
                    }
                } else {
                    proof {
                        assert(levels@ =~= old(levels)@.remove(i as int));
                        assert(levels_v(levels@) =~= lsv.remove(i as int));
                        assert(remove_id_orders(lsv[i as int].orders, id).len() == 0);
                    }
                }
                return o;
            },
            None => {
                proof {
                    assert(forall|m: int|
                        0 <= m < lsv[i as int].orders.len() ==> (#[trigger] lsv[i as int].orders[m]).id
                            != id);
                    assert(!level_has(lsv[i as int], id));
                }
                i = i + 1;
            },
        }
    }
    proof {
        let w = choose|w: int| 0 <= w < lsv.len() && level_has(#[trigger] lsv[w], id);
        assert(false);
    }
    Order {
        id: 0,
        side: Side::Buy,
        order_type: OrderType::Limit,
        price: 0,
        quantity: 0,
        remaining_quantity: 0,
        timestamp: 0,
        user_id: None,
    }
}

/// The matching loop: cross an incoming quantity against the opposite
/// ladder, FIFO from the best price, producing one trade per executed
/// resting order (or partial front order) at the maker's price. Fully
/// executed makers leave the index. Returns the executed quantity.
#[verifier::rlimit(60)]
fn match_levels(
    levels: &mut Vec<PriceLevel>,
    index: &mut Vec<OrderLoc>,
    taker_id: u128,
    taker_is_buy: bool,
    limit: u64,
    qty: u64,
    trades: &mut Vec<Trade>,
) -> (traded: u64)
    requires
        ladder_ok(levels_v(old(levels)@), !taker_is_buy),
        levels_cached(old(levels)@),
        old(trades)@.len() == 0,
        forall|x: u128| #[trigger] count_loc(old(index)@, x) <= 1,
        forall|x: u128|
            ladder_count(levels_v(old(levels)@), x) <= #[trigger] count_loc(old(index)@, x),
        forall|m: int|
            0 <= m < old(index)@.len() && (#[trigger] old(index)@[m]).side == side_of(
                !taker_is_buy,
            ) ==> ladder_has_at(
                levels_v(old(levels)@),
                old(index)@[m].id,
                old(index)@[m].price,
            ),
        forall|m: int|
            0 <= m < old(index)@.len() && (#[trigger] old(index)@[m]).side == side_of(
                taker_is_buy,
            ) ==> ladder_count(levels_v(old(levels)@), old(index)@[m].id) == 0,
    ensures
        levels_cached(final(levels)@),
        ladder_ok(levels_v(final(levels)@), !taker_is_buy),
        levels_v(final(levels)@) == consume(
            levels_v(old(levels)@),
            taker_is_buy,
            limit,
            qty as int,
        ),
        final(trades)@.len() == fills(
            levels_v(old(levels)@),
            taker_is_buy,
            limit,
            qty as int,
        ).len(),
        forall|i: int|
            0 <= i < final(trades)@.len() ==> trade_matches(
                #[trigger] final(trades)@[i],
                fills(levels_v(old(levels)@), taker_is_buy, limit, qty as int)[i],
                taker_id,
                taker_is_buy,
            ),
        traded == sum_fills(fills(levels_v(old(levels)@), taker_is_buy, limit, qty as int)),
        traded <= qty,
        forall|x: u128|
            #[trigger] count_loc(final(index)@, x) == count_loc(old(index)@, x) - (ladder_count(
                levels_v(old(levels)@),
                x,
            ) - ladder_count(levels_v(final(levels)@), x)),
        counts_le(levels_v(final(levels)@), levels_v(old(levels)@)),
        locs_sub(final(index)@, old(index)@),
        forall|m: int|
            0 <= m < final(index)@.len() && (#[trigger] final(index)@[m]).side == side_of(
                !taker_is_buy,
            ) ==> ladder_has_at(
                levels_v(final(levels)@),
                final(index)@[m].id,
                final(index)@[m].price,
            ),
        fills(levels_v(old(levels)@), taker_is_buy, limit, qty as int).len() == 0 ==> (
        final(index)@ == old(index)@ && final(levels)@ == old(levels)@),
{
    let ghost lsv0 = levels_v(old(levels)@);
    let ghost idx0 = old(index)@;
    let ghost fsq = fills(lsv0, taker_is_buy, limit, qty as int);
    let ghost mb = !taker_is_buy;
    let mut rem: u64 = qty;
    let ghost mut fv: Seq<FillV> = Seq::empty();
    let mut done: bool = false;
    proof {
        lemma_locs_sub_refl(idx0);
        lemma_counts_le_refl(lsv0);
    }
    while !done
        invariant
            rem <= qty,
            lsv0 == levels_v(old(levels)@),
            idx0 == old(index)@,
            fsq == fills(lsv0, taker_is_buy, limit, qty as int),
            mb == !taker_is_buy,
            ladder_ok(levels_v(levels@), mb),
            levels_cached(levels@),
            fsq == fv + fills(levels_v(levels@), taker_is_buy, limit, rem as int),
            consume(lsv0, taker_is_buy, limit, qty as int) == consume(
                levels_v(levels@),
                taker_is_buy,
                limit,
                rem as int,
            ),
            sum_fills(fv) == qty - rem,
            trades@.len() == fv.len(),
            forall|i: int|
                0 <= i < fv.len() ==> trade_matches(
                    #[trigger] trades@[i],
                    fv[i],
                    taker_id,
                    taker_is_buy,
                ),
            forall|x: u128| #[trigger] count_loc(idx0, x) <= 1,
            forall|x: u128| ladder_count(lsv0, x) <= #[trigger] count_loc(idx0, x),
            forall|x: u128|
                #[trigger] count_loc(index@, x) == count_loc(idx0, x) - (ladder_count(lsv0, x)
                    - ladder_count(levels_v(levels@), x)),
            counts_le(levels_v(levels@), lsv0),
            locs_sub(index@, idx0),
            forall|m: int|
                0 <= m < index@.len() && (#[trigger] index@[m]).side == side_of(mb)
                    ==> ladder_has_at(levels_v(levels@), index@[m].id, index@[m].price),
            forall|m: int|
                0 <= m < index@.len() && (#[trigger] index@[m]).side == side_of(taker_is_buy)
                    ==> ladder_count(levels_v(levels@), index@[m].id) == 0,
            fv.len() == 0 ==> index@ == idx0 && levels@ == old(levels)@,
            done ==> rem == 0 || levels@.len() == 0 || !crosses(
                taker_is_buy,
                limit,
                levels_v(levels@)[0].price,
            ),
        decreases (if done {
            0int
        } else {
            1int
        }), ladder_total(levels_v(levels@)),
    {
        proof {
            lemma_ladder_total_nonneg(levels_v(levels@));
        }
        if rem == 0 || levels.len() == 0 {
            done = true;
        } else {
            let front_price = levels[0].price;
            let cross = if taker_is_buy {
                front_price <= limit
            } else {
                front_price >= limit
            };
            if !cross {
                proof {
                    assert(levels_v(levels@)[0] == levels@[0]@);
                }
                done = true;
            } else {
                let ghost cur = levels_v(levels@);
                proof {
                    assert(cur[0] == levels@[0]@);
                    assert(level_ok(cur[0], mb));
                    assert(can_trade(cur, taker_is_buy, limit, rem as int));
                }
                let mut lvl = levels.remove(0);
                let head_rem = lvl.orders[0].remaining_quantity;
                let maker_id = lvl.orders[0].id;
                let lvl_price = lvl.price;
                let trade_qty = if rem < head_rem {
                    rem
                } else {
                    head_rem
                };
                proof {
                    lemma_sum_rem_nonneg(cur[0].orders.drop_first());
                    assert(sum_rem(cur[0].orders) == head_rem + sum_rem(cur[0].orders.drop_first()));
                }
                let t = if taker_is_buy {
                    Trade::new(taker_id, maker_id, lvl_price, trade_qty)
                } else {
                    Trade::new(maker_id, taker_id, lvl_price, trade_qty)
                };
                trades.push(t);
                let ghost f = FillV { maker_id, price: lvl_price, qty: trade_qty as int };
                if rem < head_rem {
                    // partial execution of the front order; the level stays
                    let mut h = lvl.orders.remove(0);
                    h.remaining_quantity = head_rem - rem;
                    lvl.orders.insert(0, h);
                    lvl.total_quantity = lvl.total_quantity - trade_qty;
                    levels.insert(0, lvl);
                    proof {
                        let h2 = with_remaining(cur[0].orders[0], (head_rem - rem) as u64);
                        assert(h == h2);
                        assert(levels@[0].orders@ =~= cur[0].orders.update(0, h2));
                        assert(levels_v(levels@) =~= reduce_head(cur, rem as int));
                        lemma_reduce_head_ok(cur, mb, rem as int);
                        lemma_reduce_head_total(cur, rem as int);
                        lemma_sum_rem_update(cur[0].orders, 0, h2);
                        assert(levels_cached(levels@));
                        // one unfolding of the model at (cur, rem)
                        assert(fills(cur, taker_is_buy, limit, rem as int) =~= seq![f]);
                        assert(consume(cur, taker_is_buy, limit, rem as int) == reduce_head(
                            cur,
                            rem as int,
                        ));
                        let cur2 = levels_v(levels@);
                        assert(fills(cur2, taker_is_buy, limit, 0) =~= Seq::<FillV>::empty());
                        assert(consume(cur2, taker_is_buy, limit, 0) == cur2);
                        assert(fv + fills(cur, taker_is_buy, limit, rem as int) =~= fv.push(f)
                            + fills(cur2, taker_is_buy, limit, 0));
                        lemma_sum_fills_push(fv, f);
                        assert forall|x: u128| #![trigger ladder_count(levels_v(levels@), x)]
                            ladder_count(levels_v(levels@), x) == ladder_count(cur, x)
                            && ladder_count(levels_v(levels@), x) <= ladder_count(lsv0, x) by {
                            lemma_reduce_head_count(cur, rem as int, x);
                            assert(counts_le(cur, lsv0));
                            assert(ladder_count(cur, x) <= ladder_count(lsv0, x));
                        }
                        assert(counts_le(levels_v(levels@), lsv0));
                        lemma_ladder_total_nonneg(levels_v(levels@));
                        assert forall|m: int|
                            0 <= m < index@.len() && (#[trigger] index@[m]).side == side_of(mb)
                                implies ladder_has_at(
                            levels_v(levels@),
                            index@[m].id,
                            index@[m].price,
                        ) by {
                            lemma_reduce_head_has_at(
                                cur,
                                rem as int,
                                index@[m].id,
                                index@[m].price,
                            );
                        }
                        fv = fv.push(f);
                    }
                    rem = 0;
                } else {
                    // the front order is fully executed and leaves the
                    // book and the index
                    let _popped = lvl.orders.remove(0);
                    lvl.total_quantity = lvl.total_quantity - trade_qty;
                    if lvl.orders.len() > 0 {
                        levels.insert(0, lvl);
                        proof {
                            assert(levels@[0].orders@ =~= cur[0].orders.drop_first());
                            assert(levels_v(levels@) =~= pop_head(cur));
                        }
                    } else {
                        proof {
                            assert(levels_v(levels@) =~= pop_head(cur));
                        }
                    }
                    proof {
                        lemma_pop_head_ok(cur, mb);
                        lemma_pop_head_total(cur);
                        assert(levels_cached(levels@));
                        assert(level_has(cur[0], maker_id));
                        lemma_ladder_count_has(cur, maker_id);
                        lemma_count_loc_has(index@, maker_id);
                    }
                    let kf = match find_loc(index, maker_id) {
                        Some(k) => k,
                        None => {
                            proof {
                                lemma_count_loc_has(index@, maker_id);
                                assert(false);
                            }
                            0
                        },
                    };
                    let ghost idx_before = index@;
                    let ghost removed_loc = index@[kf as int];
                    index.remove(kf);
                    proof {
                        let cur2 = levels_v(levels@);
                        // the removed entry was a maker-side entry
                        assert(ladder_count(cur, removed_loc.id) >= 1);
                        if removed_loc.side == side_of(taker_is_buy) {
                            assert(ladder_count(cur, removed_loc.id) == 0);
                            assert(false);
                        }
                        // one unfolding of the model at (cur, rem)
                        assert(fills(cur, taker_is_buy, limit, rem as int) =~= seq![f] + fills(
                            pop_head(cur),
                            taker_is_buy,
                            limit,
                            rem as int - head_rem,
                        ));
                        assert(consume(cur, taker_is_buy, limit, rem as int) == consume(
                            pop_head(cur),
                            taker_is_buy,
                            limit,
                            rem as int - head_rem,
                        ));
                        assert(fv + fills(cur, taker_is_buy, limit, rem as int) =~= fv.push(f)
                            + fills(cur2, taker_is_buy, limit, rem as int - head_rem));
                        lemma_sum_fills_push(fv, f);
                        assert forall|x: u128|
                            count_loc(index@, x) == count_loc(idx0, x) - (ladder_count(lsv0, x)
                                - ladder_count(cur2, x)) by {
                            lemma_pop_head_count(cur, x);
                            lemma_count_loc_remove(idx_before, kf as int, x);
                        }
                        assert forall|x: u128| #![trigger ladder_count(cur2, x)]
                            ladder_count(cur2, x) <= ladder_count(lsv0, x) by {
                            lemma_pop_head_count(cur, x);
                            assert(counts_le(cur, lsv0));
                            assert(ladder_count(cur, x) <= ladder_count(lsv0, x));
                        }
                        assert(counts_le(cur2, lsv0));
                        lemma_ladder_total_nonneg(cur2);
                        assert(locs_sub(idx_before, idx0));
                        lemma_locs_sub_remove(idx_before, idx0, kf as int);
                        assert forall|m: int|
                            0 <= m < index@.len() && (#[trigger] index@[m]).side == side_of(mb)
                                implies ladder_has_at(cur2, index@[m].id, index@[m].price) by {
                            let mprev: int = if m < kf {
                                m
                            } else {
                                m + 1
                            };
                            assert(index@[m] == idx_before[mprev]);
                            if index@[m].id == maker_id {
                                lemma_count_loc_two(idx_before, maker_id, if mprev < kf {
                                    mprev
                                } else {
                                    kf as int
                                }, if mprev < kf {
                                    kf as int
                                } else {
                                    mprev
                                });
                            }
                            lemma_pop_head_has_at(cur, index@[m].id, index@[m].price);
                        }
                        assert forall|m: int|
                            0 <= m < index@.len() && (#[trigger] index@[m]).side == side_of(
                                taker_is_buy,
                            ) implies ladder_count(cur2, index@[m].id) == 0 by {
                            let mprev: int = if m < kf {
                                m
                            } else {
                                m + 1
                            };
                            assert(index@[m] == idx_before[mprev]);
                            lemma_pop_head_count(cur, index@[m].id);
                            lemma_ladder_count_nonneg(cur2, index@[m].id);
                        }
                        fv = fv.push(f);
                    }
                    rem = rem - trade_qty;
                }
            }
        }
    }
    proof {
        let cur = levels_v(levels@);
        assert(fills(cur, taker_is_buy, limit, rem as int) =~= Seq::<FillV>::empty());
        assert(consume(cur, taker_is_buy, limit, rem as int) == cur);
        assert(fsq =~= fv);
    }
    qty - rem
}

/// Executable strict price priority comparison.
fn price_better(is_bid: bool, a: u64, b: u64) -> (r: bool)
    ensures
        r == better(is_bid, a, b),
{
    if is_bid {
        a > b
    } else {
        a < b
    }
}

/// Executable crossing test.
fn price_crosses(taker_is_buy: bool, limit: u64, maker_price: u64) -> (r: bool)
    ensures
        r == crosses(taker_is_buy, limit, maker_price),
{
    if taker_is_buy {
        maker_price <= limit
    } else {
        maker_price >= limit
    }
}

/// Rest an order on its own ladder: append to its price's level, or
/// create the level at its sorted position.
fn ladder_rest(levels: &mut Vec<PriceLevel>, is_bid: bool, o: Order)
    requires
        ladder_ok(levels_v(old(levels)@), is_bid),
        levels_cached(old(levels)@),
        order_ok(o, o.price, is_bid),
        o.price > 0,
        ladder_total(levels_v(old(levels)@)) + o.remaining_quantity <= u64::MAX,
    ensures
        levels_v(final(levels)@) == insert_order(levels_v(old(levels)@), o, is_bid),
        levels_cached(final(levels)@),
{
    let ghost lsv = levels_v(old(levels)@);
    let opr = o.price;
    let orq = o.remaining_quantity;
    let mut i: usize = 0;
    while i < levels.len() && price_better(is_bid, levels[i].price, opr)
        invariant
            levels@ == old(levels)@,
            lsv == levels_v(levels@),
            0 <= i <= levels@.len(),
            opr == o.price,
            forall|k: int| 0 <= k < i ==> better(is_bid, (#[trigger] lsv[k]).price, o.price),
        decreases levels@.len() - i,
    {
        proof {
            assert(lsv[i as int] == levels@[i as int]@);
        }
        i = i + 1;
    }
    proof {
        if (i as int) < lsv.len() {
            assert(lsv[i as int] == levels@[i as int]@);
        }
        lemma_insert_at(lsv, o, is_bid, i as int);
    }
    if i < levels.len() && levels[i].price == opr {
        proof {
            lemma_level_le_total(lsv, i as int);
            lemma_sum_rem_push(lsv[i as int].orders, o);
        }
        let mut lvl = levels.remove(i);
        lvl.total_quantity = lvl.total_quantity + orq;
        lvl.orders.push(o);
        levels.insert(i, lvl);
        proof {
            let l2 = LevelV { price: lsv[i as int].price, orders: lsv[i as int].orders.push(o) };
            assert(levels@ =~= old(levels)@.update(i as int, levels@[i as int]));
            assert(levels@[i as int]@ =~= l2);
            assert(levels_v(levels@) =~= lsv.update(i as int, l2));
            assert(levels_cached(levels@));
        }
    } else {
        let mut first: Vec<Order> = Vec::new();
        first.push(o);
        let lvl = PriceLevel { price: opr, orders: first, total_quantity: orq };
        levels.insert(i, lvl);
        proof {
            assert(seq![o].drop_first() =~= Seq::<Order>::empty());
            assert(sum_rem(seq![o]) == o.remaining_quantity + sum_rem(seq![o].drop_first()));
            assert(levels@[i as int]@ =~= singleton_level(o));
            assert(levels_v(levels@) =~= lsv.insert(i as int, singleton_level(o)));
            assert forall|k: int|
                0 <= k < levels@.len() implies (#[trigger] levels@[k]).total_quantity == sum_rem(
                levels@[k].orders@,
            ) by {
                if k < i {
                    assert(levels@[k] == old(levels)@[k]);
                } else if k > i {
                    assert(levels@[k] == old(levels)@[k - 1]);
                }
            }
        }
    }
}

/// The resting quantity an incoming order with this effective limit
/// could execute against: the total of the leading crossing levels.
fn eligible_quantity(levels: &Vec<PriceLevel>, taker_is_buy: bool, limit: u64) -> (r: u64)
    requires
        ladder_ok(levels_v(levels@), !taker_is_buy),
        levels_cached(levels@),
        ladder_total(levels_v(levels@)) <= u64::MAX,
    ensures
        r == eligible_qty(levels_v(levels@), taker_is_buy, limit),
{
    let ghost lsv = levels_v(levels@);
    proof {
        lemma_ladder_total_nonneg(lsv);
    }
    let mut sum: u64 = 0;
    let mut i: usize = 0;
    while i < levels.len() && price_crosses(taker_is_buy, limit, levels[i].price)
        invariant
            lsv == levels_v(levels@),
            ladder_ok(lsv, !taker_is_buy),
            levels_cached(levels@),
            ladder_total(lsv) <= u64::MAX,
            0 <= i <= levels@.len(),
            sum == ladder_total(lsv.take(i as int)),
            forall|k: int|
                0 <= k < i ==> crosses(taker_is_buy, limit, (#[trigger] lsv[k]).price),
        decreases levels@.len() - i,
    {
        proof {
            assert(lsv[i as int] == levels@[i as int]@);
            lemma_ladder_total_split(lsv, i + 1);
            lemma_ladder_total_take_last(lsv, i as int);
            lemma_ladder_total_nonneg(lsv.skip(i + 1));
            lemma_ladder_total_nonneg(lsv.take(i as int));
        }
        sum = sum + levels[i].total_quantity;
        i = i + 1;
    }
    proof {
        if i < levels@.len() {
            assert(lsv[i as int] == levels@[i as int]@);
        }
        lemma_eligible_prefix(lsv, taker_is_buy, limit, i as int);
    }
    sum
}

/// First index entry with this identifier, if any.
fn find_loc(locs: &Vec<OrderLoc>, id: u128) -> (r: Option<usize>)
    ensures
        match r {
            Some(k) => k < locs@.len() && locs@[k as int].id == id && forall|m: int|
                0 <= m < k ==> (#[trigger] locs@[m]).id != id,
            None => forall|m: int| 0 <= m < locs@.len() ==> (#[trigger] locs@[m]).id != id,
        },
{
    let mut k: usize = 0;
    while k < locs.len()
        invariant
            0 <= k <= locs@.len(),
            forall|m: int| 0 <= m < k ==> (#[trigger] locs@[m]).id != id,
        decreases locs@.len() - k,
    {
        if locs[k].id == id {
            return Some(k);
        }
        k = k + 1;
    }
    None
}

/// First order with this identifier in a FIFO queue, if any.
fn find_order_idx(orders: &Vec<Order>, id: u128) -> (r: Option<usize>)
    ensures
        match r {
            Some(j) => j < orders@.len() && orders@[j as int].id == id && forall|m: int|
                0 <= m < j ==> (#[trigger] orders@[m]).id != id,
            None => forall|m: int| 0 <= m < orders@.len() ==> (#[trigger] orders@[m]).id != id,
        },
{
    let mut j: usize = 0;
    while j < orders.len()
        invariant
            0 <= j <= orders@.len(),
            forall|m: int| 0 <= m < j ==> (#[trigger] orders@[m]).id != id,
        decreases orders@.len() - j,
    {
        if orders[j].id == id {
            return Some(j);
        }
        j = j + 1;
    }
    None
}

} // verus!
