//! The book's standing laws, each proved from the contracts the
//! operations state: level totals, index consistency, non-empty
//! levels, the uncrossed book, conservation of an incoming quantity,
//! maker pricing, the add-then-cancel round trip, and deterministic
//! snapshot rebuilds.

use vstd::prelude::*;
use crate::market_data::{single_order_levels, snapshot_wf};
use crate::model::{
    best_price, better, can_trade, cancel_ladder, consume, count_loc, crosses, effective_limit,
    eligible_qty, fills, insert_order, ladder_has, ladder_ok, ladder_total, lemma_cancel_insert,
    lemma_consume_fills, lemma_count_loc_has, lemma_eligible_nonneg, lemma_fills_props,
    lemma_insert_order_total, lemma_ladder_count_has, lemma_sum_fills_bounds,
    lemma_sum_rem_nonneg, lemma_sum_trades_matches, level_info_v, level_ok, min_q, rests,
    sum_fills, sum_rem, sum_trades, trade_matches, with_remaining, LevelV,
};
use crate::orderbook::OrderBook;
use crate::types::{BookSnapshotMessage, Order, OrderType, Side, Trade};

verus! {

/// Every price level's cached aggregate equals the sum of its resting
/// orders' remaining quantities, at every well-formed state.
pub proof fn lemma_level_totals(book: OrderBook)
    requires
        book.wf(),
    ensures
        forall|i: int|
            0 <= i < book.bids@.len() ==> (#[trigger] book.bids@[i]).total_quantity == sum_rem(
                book.bids@[i].orders@,
            ),
        forall|i: int|
            0 <= i < book.asks@.len() ==> (#[trigger] book.asks@[i]).total_quantity == sum_rem(
                book.asks@[i].orders@,
            ),
{
}

/// Every indexed order rests in exactly one place: each index entry
/// locates a level of its side, at its price, holding its order, and
/// no identifier rests more than once or is indexed other than
/// exactly as often as it rests.
pub proof fn lemma_index_consistency(book: OrderBook)
    requires
        book.wf(),
    ensures
        forall|k: int| 0 <= k < book.orders@.len() ==> book.loc_ok(#[trigger] book.orders@[k]),
        forall|id: u128| #[trigger] count_loc(book.orders@, id) == book.book_count(id),
        forall|id: u128| #[trigger] book.book_count(id) <= 1,
{
}

/// No price level in either ladder is ever empty.
pub proof fn lemma_no_empty_levels(book: OrderBook)
    requires
        book.wf(),
    ensures
        forall|i: int|
            0 <= i < book.bids_v().len() ==> (#[trigger] book.bids_v()[i]).orders.len() > 0,
        forall|i: int|
            0 <= i < book.asks_v().len() ==> (#[trigger] book.asks_v()[i]).orders.len() > 0,
{
    assert forall|i: int| 0 <= i < book.bids_v().len() implies (
    #[trigger] book.bids_v()[i]).orders.len() > 0 by {
        assert(level_ok(book.bids_v()[i], true));
    }
    assert forall|i: int| 0 <= i < book.asks_v().len() implies (
    #[trigger] book.asks_v()[i]).orders.len() > 0 by {
        assert(level_ok(book.asks_v()[i], false));
    }
}

/// The book is never crossed at rest: whenever both sides quote, the
/// best bid is strictly below the best ask.
pub proof fn lemma_never_crossed(book: OrderBook)
    requires
        book.wf(),
    ensures
        match (best_price(book.bids_v()), best_price(book.asks_v())) {
            (Option::Some(b), Option::Some(a)) => b < a,
            _ => true,
        },
{
}

/// Conservation: an accepted, non-rejected order's executions total
/// exactly `min(quantity, crossing liquidity)`; that total leaves the
/// opposite ladder, and for resting types the residual
/// `quantity - executed` enters the own ladder.
pub proof fn lemma_add_conservation(
    prev: OrderBook,
    post: OrderBook,
    order: Order,
    trades: Seq<Trade>,
)
    requires
        prev.wf(),
        order.quantity > 0,
        OrderBook::add_outcome(prev, post, order, trades),
        !(order.order_type == OrderType::FillOrKill && eligible_qty(
            prev.ladder_v(!(order.side == Side::Buy)),
            order.side == Side::Buy,
            effective_limit(order),
        ) < order.quantity),
    ensures
        ({
            let b = order.side == Side::Buy;
            let limit = effective_limit(order);
            let traded = sum_trades(trades);
            &&& traded == min_q(
                order.quantity as int,
                eligible_qty(prev.ladder_v(!b), b, limit),
            )
            &&& 0 <= traded <= order.quantity
            &&& ladder_total(post.ladder_v(!b)) == ladder_total(prev.ladder_v(!b)) - traded
            &&& ladder_total(post.ladder_v(b)) == ladder_total(prev.ladder_v(b)) + (if rests(
                order.order_type,
            ) && traded < order.quantity {
                order.quantity - traded
            } else {
                0
            })
        }),
{
    let b = order.side == Side::Buy;
    let limit = effective_limit(order);
    let opp0 = prev.ladder_v(!b);
    let same0 = prev.ladder_v(b);
    let fs = fills(opp0, b, limit, order.quantity as int);
    lemma_sum_trades_matches(trades, fs, order.id, b);
    lemma_consume_fills(opp0, !b, b, limit, order.quantity as int);
    lemma_eligible_nonneg(opp0, b, limit);
    if rests(order.order_type) && sum_fills(fs) < order.quantity {
        lemma_insert_order_total(
            same0,
            with_remaining(order, (order.quantity - sum_fills(fs)) as u64),
            b,
        );
    }
}

/// Maker pricing: every trade executes at the resting order's price;
/// that price crosses the incoming order's effective limit (at most a
/// Buy's limit, at least a Sell's), the incoming order stands on its
/// own side of each trade, and prices only worsen along the list.
pub proof fn lemma_trade_prices(
    prev: OrderBook,
    post: OrderBook,
    order: Order,
    trades: Seq<Trade>,
)
    requires
        prev.wf(),
        order.quantity > 0,
        OrderBook::add_outcome(prev, post, order, trades),
        !(order.order_type == OrderType::FillOrKill && eligible_qty(
            prev.ladder_v(!(order.side == Side::Buy)),
            order.side == Side::Buy,
            effective_limit(order),
        ) < order.quantity),
    ensures
        ({
            let b = order.side == Side::Buy;
            let limit = effective_limit(order);
            let fs = fills(prev.ladder_v(!b), b, limit, order.quantity as int);
            &&& forall|i: int|
                0 <= i < trades.len() ==> {
                    let t = #[trigger] trades[i];
                    &&& t.price == fs[i].price
                    &&& t.quantity == fs[i].qty
                    &&& 0 < t.quantity
                    &&& crosses(b, limit, t.price)
                    &&& (if b {
                        t.buy_order_id == order.id
                    } else {
                        t.sell_order_id == order.id
                    })
                }
            &&& forall|i: int, j: int|
                0 <= i < j < trades.len() ==> !better(
                    !b,
                    #[trigger] trades[j].price,
                    #[trigger] trades[i].price,
                )
        }),
{
    let b = order.side == Side::Buy;
    let limit = effective_limit(order);
    let opp0 = prev.ladder_v(!b);
    let fs = fills(opp0, b, limit, order.quantity as int);
    lemma_fills_props(opp0, !b, b, limit, order.quantity as int);
    assert forall|i: int| 0 <= i < trades.len() implies trade_matches(
        #[trigger] trades[i],
        fs[i],
        order.id,
        b,
    ) by {}
}

/// A FillOrKill that meets its fillability check executes its whole
/// quantity; one that falls short leaves the book untouched. A
/// FillOrKill never rests either way.
pub proof fn lemma_fill_or_kill_all_or_nothing(
    prev: OrderBook,
    post: OrderBook,
    order: Order,
    trades: Seq<Trade>,
)
    requires
        prev.wf(),
        order.quantity > 0,
        order.order_type == OrderType::FillOrKill,
        OrderBook::add_outcome(prev, post, order, trades),
    ensures
        ({
            let b = order.side == Side::Buy;
            let limit = effective_limit(order);
            &&& ladder_total(post.ladder_v(b)) == ladder_total(prev.ladder_v(b))
            &&& if eligible_qty(prev.ladder_v(!b), b, limit) >= order.quantity {
                sum_trades(trades) == order.quantity
            } else {
                trades.len() == 0 && post.bids_v() == prev.bids_v() && post.asks_v()
                    == prev.asks_v()
            }
        }),
{
    let b = order.side == Side::Buy;
    let limit = effective_limit(order);
    if eligible_qty(prev.ladder_v(!b), b, limit) >= order.quantity {
        lemma_add_conservation(prev, post, order, trades);
    }
}

/// A Market or ImmediateOrCancel order executes `min(quantity,
/// crossing liquidity)` and never rests: the residual is discarded
/// and the own ladder is untouched. Against an empty opposite side a
/// Market order therefore trades nothing and leaves no trace.
pub proof fn lemma_market_ioc_never_rest(
    prev: OrderBook,
    post: OrderBook,
    order: Order,
    trades: Seq<Trade>,
)
    requires
        prev.wf(),
        order.quantity > 0,
        order.order_type == OrderType::Market || order.order_type
            == OrderType::ImmediateOrCancel,
        OrderBook::add_outcome(prev, post, order, trades),
    ensures
        ({
            let b = order.side == Side::Buy;
            let limit = effective_limit(order);
            &&& post.ladder_v(b) == prev.ladder_v(b)
            &&& sum_trades(trades) == min_q(
                order.quantity as int,
                eligible_qty(prev.ladder_v(!b), b, limit),
            )
            &&& prev.ladder_v(!b).len() == 0 ==> trades.len() == 0 && post.ladder_v(!b)
                == prev.ladder_v(!b)
        }),
{
    lemma_add_conservation(prev, post, order, trades);
}

/// Round trip: resting an order that crosses nothing and then
/// cancelling it restores the ladders, the index, the best quotes and
/// the aggregate quantities exactly.
pub proof fn lemma_add_cancel_round_trip(
    prev: OrderBook,
    mid: OrderBook,
    post: OrderBook,
    order: Order,
    trades: Seq<Trade>,
)
    requires
        prev.wf(),
        !prev.book_has_id(order.id),
        order.quantity > 0,
        rests(order.order_type),
        eligible_qty(
            prev.ladder_v(!(order.side == Side::Buy)),
            order.side == Side::Buy,
            effective_limit(order),
        ) == 0,
        OrderBook::add_outcome(prev, mid, order, trades),
        post.bids_v() == cancel_ladder(mid.bids_v(), order.id),
        post.asks_v() == cancel_ladder(mid.asks_v(), order.id),
        exists|k: int|
            0 <= k < mid.orders@.len() && (#[trigger] mid.orders@[k]).id == order.id && (forall|
                m: int,
            |
                0 <= m < k ==> (#[trigger] mid.orders@[m]).id != order.id) && post.orders@
                == mid.orders@.remove(k),
    ensures
        post.bids_v() == prev.bids_v(),
        post.asks_v() == prev.asks_v(),
        post.orders@ == prev.orders@,
        best_price(post.bids_v()) == best_price(prev.bids_v()),
        best_price(post.asks_v()) == best_price(prev.asks_v()),
        ladder_total(post.bids_v()) == ladder_total(prev.bids_v()),
        ladder_total(post.asks_v()) == ladder_total(prev.asks_v()),
        trades.len() == 0,
{
    let b = order.side == Side::Buy;
    let limit = effective_limit(order);
    let opp0 = prev.ladder_v(!b);
    let same0 = prev.ladder_v(b);
    let fs = fills(opp0, b, limit, order.quantity as int);
    lemma_consume_fills(opp0, !b, b, limit, order.quantity as int);
    lemma_fills_props(opp0, !b, b, limit, order.quantity as int);
    lemma_sum_fills_bounds(fs);
    assert(sum_fills(fs) == 0);
    assert(fs.len() == 0);
    assert(trades.len() == 0);
    // nothing crossed, so the opposite ladder is untouched
    if can_trade(opp0, b, limit, order.quantity as int) {
        lemma_sum_rem_nonneg(opp0[0].orders.drop_first());
        assert(level_ok(opp0[0], !b));
        assert(sum_rem(opp0[0].orders) > 0);
        assert(eligible_qty(opp0, b, limit) >= sum_rem(opp0[0].orders) + eligible_qty(
            opp0.drop_first(),
            b,
            limit,
        ));
        lemma_eligible_nonneg(opp0.drop_first(), b, limit);
        assert(false);
    }
    assert(consume(opp0, b, limit, order.quantity as int) == opp0);
    assert(mid.ladder_v(!b) == opp0);
    // the residual is the whole order, rested on its own side
    let rested = with_remaining(order, order.quantity);
    assert(mid.ladder_v(b) == insert_order(same0, rested, b));
    lemma_ladder_count_has(same0, order.id);
    lemma_ladder_count_has(opp0, order.id);
    lemma_cancel_insert(same0, rested, b);
    lemma_cancel_absent_of(opp0, order.id);
    if b {
        assert(post.bids_v() == prev.bids_v());
        assert(post.asks_v() == prev.asks_v());
    } else {
        assert(post.asks_v() == prev.asks_v());
        assert(post.bids_v() == prev.bids_v());
    }
    // the index entry removed is the one the add pushed
    assert(mid.orders@ == prev.orders@.push(
        crate::model::OrderLoc { id: order.id, side: order.side, price: order.price },
    ));
    let k = choose|k: int|
        0 <= k < mid.orders@.len() && (#[trigger] mid.orders@[k]).id == order.id && (forall|
            m: int,
        |
            0 <= m < k ==> (#[trigger] mid.orders@[m]).id != order.id) && post.orders@
            == mid.orders@.remove(k);
    lemma_count_loc_has(prev.orders@, order.id);
    assert(count_loc(prev.orders@, order.id) == prev.book_count(order.id));
    assert(count_loc(prev.orders@, order.id) == 0);
    if k < prev.orders@.len() {
        assert(mid.orders@[k] == prev.orders@[k]);
        assert(false);
    }
    assert(k == prev.orders@.len());
    assert(mid.orders@.remove(k) =~= prev.orders@);
}

/// Cancelling an identifier a ladder does not hold changes nothing.
proof fn lemma_cancel_absent_of(ls: Seq<LevelV>, id: u128)
    requires
        !ladder_has(ls, id),
    ensures
        cancel_ladder(ls, id) == ls,
{
    crate::model::lemma_cancel_absent(ls, id);
}

/// Rebuilding from one well-formed snapshot is deterministic level by
/// level: any two books carrying its rebuilt form agree on every
/// level's price, aggregate quantity and order count, and so on the
/// best quotes — applying a snapshot twice yields the same book.
pub proof fn lemma_snapshot_rebuild_deterministic(
    m: BookSnapshotMessage,
    b1: OrderBook,
    b2: OrderBook,
)
    requires
        snapshot_wf(m),
        single_order_levels(b1.bids_v(), m.bids@),
        single_order_levels(b1.asks_v(), m.asks@),
        single_order_levels(b2.bids_v(), m.bids@),
        single_order_levels(b2.asks_v(), m.asks@),
    ensures
        b1.bids_v().len() == b2.bids_v().len(),
        b1.asks_v().len() == b2.asks_v().len(),
        forall|i: int|
            0 <= i < b1.bids_v().len() ==> level_info_v(#[trigger] b1.bids_v()[i]) == level_info_v(
                b2.bids_v()[i],
            ),
        forall|i: int|
            0 <= i < b1.asks_v().len() ==> level_info_v(#[trigger] b1.asks_v()[i]) == level_info_v(
                b2.asks_v()[i],
            ),
        best_price(b1.bids_v()) == best_price(b2.bids_v()),
        best_price(b1.asks_v()) == best_price(b2.asks_v()),
{
    assert forall|i: int| 0 <= i < b1.bids_v().len() implies level_info_v(
        #[trigger] b1.bids_v()[i],
    ) == level_info_v(b2.bids_v()[i]) by {
        lemma_single_info(b1.bids_v()[i], m.bids@[i]);
        lemma_single_info(b2.bids_v()[i], m.bids@[i]);
    }
    assert forall|i: int| 0 <= i < b1.asks_v().len() implies level_info_v(
        #[trigger] b1.asks_v()[i],
    ) == level_info_v(b2.asks_v()[i]) by {
        lemma_single_info(b1.asks_v()[i], m.asks@[i]);
        lemma_single_info(b2.asks_v()[i], m.asks@[i]);
    }
}

/// A single-order level's summary is determined by the stated level.
proof fn lemma_single_info(l: LevelV, info: crate::types::LevelInfo)
    requires
        l.price == info.price,
        l.orders.len() == 1,
        l.orders[0].remaining_quantity == info.quantity,
    ensures
        level_info_v(l) == (crate::types::LevelInfo {
            price: info.price,
            quantity: info.quantity,
            order_count: 1,
        }),
{
    assert(sum_rem(l.orders) == l.orders[0].remaining_quantity + sum_rem(l.orders.drop_first()));
    assert(l.orders.drop_first().len() == 0);
}

} // verus!
