//! The mathematical model of the book: a ladder is a sequence of price
//! levels, best price first (bids descending, asks ascending), each
//! level a FIFO sequence of resting orders. The matching algorithm is
//! modelled by the recursive functions `fills` (the executions an
//! incoming quantity produces against a ladder) and `consume` (the
//! ladder that remains). Insertion and cancellation have recursive
//! models as well; the order book's contracts are stated over these.

use vstd::prelude::*;
use crate::types::{LevelInfo, Order, OrderType, Side, Trade};

verus! {

/// View of one price level: its price and its resting orders in
/// priority (arrival) order.
#[verifier::ext_equal]
pub ghost struct LevelV {
    pub price: u64,
    pub orders: Seq<Order>,
}

/// One execution: the resting (maker) order's identifier, the price it
/// rested at, and the quantity exchanged.
#[verifier::ext_equal]
pub ghost struct FillV {
    pub maker_id: u128,
    pub price: u64,
    pub qty: int,
}

/// Locator held by the order index: enough to find the order's ladder
/// and level.
#[derive(Debug, Clone, Copy, PartialEq, Eq, Structural)]
pub struct OrderLoc {
    pub id: u128,
    pub side: Side,
    pub price: u64,
}

/// Which order types may rest on the book after matching.
pub open spec fn rests(t: OrderType) -> bool {
    t == OrderType::Limit || t == OrderType::GoodTillCancel || t == OrderType::GoodForDay
}

pub open spec fn side_of(is_bid: bool) -> Side {
    if is_bid {
        Side::Buy
    } else {
        Side::Sell
    }
}

/// `a` is strictly closer to the front of the ladder than `b`.
pub open spec fn better(is_bid: bool, a: u64, b: u64) -> bool {
    if is_bid {
        a > b
    } else {
        a < b
    }
}

/// A resting order is well formed for the level and ladder holding it.
pub open spec fn order_ok(o: Order, price: u64, is_bid: bool) -> bool {
    &&& o.price == price
    &&& o.side == side_of(is_bid)
    &&& 0 < o.remaining_quantity <= o.quantity
    &&& rests(o.order_type)
}

pub open spec fn level_ok(l: LevelV, is_bid: bool) -> bool {
    &&& l.orders.len() > 0
    &&& l.price > 0
    &&& forall|j: int| 0 <= j < l.orders.len() ==> order_ok(#[trigger] l.orders[j], l.price, is_bid)
}

/// Levels are well formed, never empty, and strictly ordered best
/// price first.
pub open spec fn ladder_ok(ls: Seq<LevelV>, is_bid: bool) -> bool {
    &&& forall|i: int| 0 <= i < ls.len() ==> level_ok(#[trigger] ls[i], is_bid)
    &&& forall|i: int, j: int|
        0 <= i < j < ls.len() ==> better(is_bid, #[trigger] ls[i].price, #[trigger] ls[j].price)
}

/// Sum of the remaining quantities of a level's orders.
pub open spec fn sum_rem(orders: Seq<Order>) -> int
    decreases orders.len(),
{
    if orders.len() == 0 {
        0
    } else {
        orders[0].remaining_quantity + sum_rem(orders.drop_first())
    }
}

/// Sum of the remaining quantities over a whole ladder.
pub open spec fn ladder_total(ls: Seq<LevelV>) -> int
    decreases ls.len(),
{
    if ls.len() == 0 {
        0
    } else {
        sum_rem(ls[0].orders) + ladder_total(ls.drop_first())
    }
}

/// Does a maker level at `maker_price` cross an incoming order with
/// effective limit `limit`? A Market order's effective limit is
/// `u64::MAX` (Buy) or `0` (Sell).
pub open spec fn crosses(taker_is_buy: bool, limit: u64, maker_price: u64) -> bool {
    if taker_is_buy {
        maker_price <= limit
    } else {
        maker_price >= limit
    }
}

/// The resting quantity an incoming order could execute against: the
/// total of the leading crossing levels.
pub open spec fn eligible_qty(ls: Seq<LevelV>, taker_is_buy: bool, limit: u64) -> int
    decreases ls.len(),
{
    if ls.len() == 0 {
        0
    } else if crosses(taker_is_buy, limit, ls[0].price) {
        sum_rem(ls[0].orders) + eligible_qty(ls.drop_first(), taker_is_buy, limit)
    } else {
        0
    }
}

/// The same order with a different remaining quantity.
pub open spec fn with_remaining(o: Order, r: u64) -> Order {
    Order { remaining_quantity: r, ..o }
}

/// Remove the front order of the front level; drop the level if it
/// becomes empty.
pub open spec fn pop_head(ls: Seq<LevelV>) -> Seq<LevelV>
    recommends
        ls.len() > 0,
        ls[0].orders.len() > 0,
{
    if ls[0].orders.len() == 1 {
        ls.drop_first()
    } else {
        ls.update(0, LevelV { price: ls[0].price, orders: ls[0].orders.drop_first() })
    }
}

/// Reduce the front order of the front level by `amt`.
pub open spec fn reduce_head(ls: Seq<LevelV>, amt: int) -> Seq<LevelV>
    recommends
        ls.len() > 0,
        ls[0].orders.len() > 0,
        0 < amt < ls[0].orders[0].remaining_quantity,
{
    let h = ls[0].orders[0];
    ls.update(
        0,
        LevelV {
            price: ls[0].price,
            orders: ls[0].orders.update(0, with_remaining(h, (h.remaining_quantity - amt) as u64)),
        },
    )
}

/// Can an incoming order with `amt` left still execute against the
/// ladder's front?
pub open spec fn can_trade(ls: Seq<LevelV>, taker_is_buy: bool, limit: u64, amt: int) -> bool {
    amt > 0 && ls.len() > 0 && ls[0].orders.len() > 0 && crosses(taker_is_buy, limit, ls[0].price)
}

/// The ladder after an incoming order of quantity `amt` and effective
/// limit `limit` has matched against it, FIFO from the best level.
pub open spec fn consume(ls: Seq<LevelV>, taker_is_buy: bool, limit: u64, amt: int) -> Seq<LevelV>
    decreases ls.len(), (if ls.len() > 0 { ls[0].orders.len() } else { 0 }),
{
    if !can_trade(ls, taker_is_buy, limit, amt) {
        ls
    } else {
        let h = ls[0].orders[0];
        if amt < h.remaining_quantity {
            reduce_head(ls, amt)
        } else {
            consume(pop_head(ls), taker_is_buy, limit, amt - h.remaining_quantity)
        }
    }
}

/// The executions that the same match produces, in order: maker price
/// and quantity for each step.
pub open spec fn fills(ls: Seq<LevelV>, taker_is_buy: bool, limit: u64, amt: int) -> Seq<FillV>
    decreases ls.len(), (if ls.len() > 0 { ls[0].orders.len() } else { 0 }),
{
    if !can_trade(ls, taker_is_buy, limit, amt) {
        Seq::empty()
    } else {
        let h = ls[0].orders[0];
        if amt < h.remaining_quantity {
            seq![FillV { maker_id: h.id, price: ls[0].price, qty: amt }]
        } else {
            seq![
                FillV { maker_id: h.id, price: ls[0].price, qty: h.remaining_quantity as int },
            ] + fills(pop_head(ls), taker_is_buy, limit, amt - h.remaining_quantity)
        }
    }
}

pub open spec fn sum_fills(fs: Seq<FillV>) -> int
    decreases fs.len(),
{
    if fs.len() == 0 {
        0
    } else {
        fs[0].qty + sum_fills(fs.drop_first())
    }
}

/// Sum of the quantities a snapshot states for its levels.
pub open spec fn sum_info_qty(infos: Seq<LevelInfo>) -> int
    decreases infos.len(),
{
    if infos.len() == 0 {
        0
    } else {
        infos[0].quantity + sum_info_qty(infos.drop_first())
    }
}

pub proof fn lemma_sum_info_nonneg(infos: Seq<LevelInfo>)
    ensures
        sum_info_qty(infos) >= 0,
    decreases infos.len(),
{
    if infos.len() > 0 {
        lemma_sum_info_nonneg(infos.drop_first());
    }
}

pub proof fn lemma_sum_info_split(infos: Seq<LevelInfo>, i: int)
    requires
        0 <= i <= infos.len(),
    ensures
        sum_info_qty(infos) == sum_info_qty(infos.take(i)) + sum_info_qty(infos.skip(i)),
    decreases i,
{
    if i == 0 {
        assert(infos.take(0) =~= Seq::<LevelInfo>::empty());
        assert(infos.skip(0) =~= infos);
    } else {
        assert(infos.take(i)[0] == infos[0]);
        assert(infos.take(i).drop_first() =~= infos.drop_first().take(i - 1));
        assert(infos.skip(i) =~= infos.drop_first().skip(i - 1));
        lemma_sum_info_split(infos.drop_first(), i - 1);
        assert(sum_info_qty(infos.take(i)) == infos[0].quantity + sum_info_qty(
            infos.take(i).drop_first(),
        ));
    }
}

pub proof fn lemma_sum_info_take_last(infos: Seq<LevelInfo>, i: int)
    requires
        0 <= i < infos.len(),
    ensures
        sum_info_qty(infos.take(i + 1)) == sum_info_qty(infos.take(i)) + infos[i].quantity,
{
    lemma_sum_info_split(infos.take(i + 1), i);
    assert(infos.take(i + 1).take(i) =~= infos.take(i));
    assert(infos.take(i + 1).skip(i) =~= seq![infos[i]]);
    assert(seq![infos[i]].drop_first() =~= Seq::<LevelInfo>::empty());
    assert(sum_info_qty(seq![infos[i]]) == infos[i].quantity + sum_info_qty(
        seq![infos[i]].drop_first(),
    ));
}

/// The price at the front of a ladder, if any.
pub open spec fn best_price(ls: Seq<LevelV>) -> Option<u64> {
    if ls.len() > 0 {
        Some(ls[0].price)
    } else {
        None
    }
}

/// A level summarised as price, aggregate quantity and order count.
pub open spec fn level_info_v(l: LevelV) -> LevelInfo {
    LevelInfo {
        price: l.price,
        quantity: sum_rem(l.orders) as u64,
        order_count: l.orders.len() as usize,
    }
}

/// The price an order effectively matches at: its own limit, or the
/// most aggressive possible price for a Market order.
pub open spec fn effective_limit(o: Order) -> u64 {
    if o.order_type == OrderType::Market {
        if o.side == Side::Buy {
            u64::MAX
        } else {
            0
        }
    } else {
        o.price
    }
}

/// A produced trade corresponds to one modelled execution: maker
/// price, executed quantity, and maker/taker identifiers on the right
/// sides.
pub open spec fn trade_matches(t: Trade, f: FillV, taker_id: u128, taker_is_buy: bool) -> bool {
    &&& t.price == f.price
    &&& t.quantity == f.qty
    &&& if taker_is_buy {
        t.buy_order_id == taker_id && t.sell_order_id == f.maker_id
    } else {
        t.sell_order_id == taker_id && t.buy_order_id == f.maker_id
    }
}

/// The replacement price of a modified order: the new one if given.
pub open spec fn replace_price(base: Order, new_price: Option<u64>) -> u64 {
    match new_price {
        Option::Some(p) => p,
        Option::None => base.price,
    }
}

/// The replacement quantity of a modified order: the new one if
/// given, else the resting remainder carries over.
pub open spec fn replace_qty(base: Order, new_quantity: Option<u64>) -> u64 {
    match new_quantity {
        Option::Some(q) => q,
        Option::None => base.remaining_quantity,
    }
}

/// The order that a modification resubmits: the old order's side,
/// type and user under a fresh identifier and timestamp, with the
/// replacement price and quantity.
pub open spec fn modified_order(
    base: Order,
    new_price: Option<u64>,
    new_quantity: Option<u64>,
    nid: u128,
    ts: u64,
) -> Order {
    Order {
        id: nid,
        side: base.side,
        order_type: base.order_type,
        price: replace_price(base, new_price),
        quantity: replace_qty(base, new_quantity),
        remaining_quantity: replace_qty(base, new_quantity),
        timestamp: ts,
        user_id: base.user_id,
    }
}

/// The matching phase and residual rest of one submitted order, over
/// ladder views: the trades are the modelled fills, the opposite
/// ladder is consumed, and the residual rests exactly for the types
/// that rest.
pub open spec fn match_rest_outcome(
    opp0: Seq<LevelV>,
    same0: Seq<LevelV>,
    opp1: Seq<LevelV>,
    same1: Seq<LevelV>,
    order: Order,
    trades: Seq<Trade>,
) -> bool {
    let b = order.side == Side::Buy;
    let limit = effective_limit(order);
    let fs = fills(opp0, b, limit, order.quantity as int);
    let traded = sum_fills(fs);
    &&& trades.len() == fs.len()
    &&& forall|i: int| 0 <= i < fs.len() ==> trade_matches(#[trigger] trades[i], fs[i], order.id, b)
    &&& opp1 == consume(opp0, b, limit, order.quantity as int)
    &&& if rests(order.order_type) && traded < order.quantity {
        same1 == insert_order(same0, with_remaining(order, (order.quantity - traded) as u64), b)
    } else {
        same1 == same0
    }
}

/// A new level holding one order.
pub open spec fn singleton_level(o: Order) -> LevelV {
    LevelV { price: o.price, orders: seq![o] }
}

/// Rest an order on its own ladder: append to its price's level if one
/// exists, else create the level at its sorted position.
pub open spec fn insert_order(ls: Seq<LevelV>, o: Order, is_bid: bool) -> Seq<LevelV>
    decreases ls.len(),
{
    if ls.len() == 0 {
        seq![singleton_level(o)]
    } else if ls[0].price == o.price {
        ls.update(0, LevelV { price: ls[0].price, orders: ls[0].orders.push(o) })
    } else if better(is_bid, ls[0].price, o.price) {
        seq![ls[0]] + insert_order(ls.drop_first(), o, is_bid)
    } else {
        seq![singleton_level(o)] + ls
    }
}

pub open spec fn level_has(l: LevelV, id: u128) -> bool {
    exists|j: int| 0 <= j < l.orders.len() && l.orders[j].id == id
}

pub open spec fn ladder_has(ls: Seq<LevelV>, id: u128) -> bool {
    exists|i: int| 0 <= i < ls.len() && level_has(#[trigger] ls[i], id)
}

/// The ladder holds the order with this identifier in a level at this
/// price.
pub open spec fn ladder_has_at(ls: Seq<LevelV>, id: u128, price: u64) -> bool {
    exists|i: int| 0 <= i < ls.len() && (#[trigger] ls[i]).price == price && level_has(ls[i], id)
}

/// Remove the first order with this identifier from a FIFO queue.
pub open spec fn remove_id_orders(orders: Seq<Order>, id: u128) -> Seq<Order>
    decreases orders.len(),
{
    if orders.len() == 0 {
        orders
    } else if orders[0].id == id {
        orders.drop_first()
    } else {
        seq![orders[0]] + remove_id_orders(orders.drop_first(), id)
    }
}

/// Cancel an order out of a ladder: excise it from its level, dropping
/// the level if it becomes empty.
pub open spec fn cancel_ladder(ls: Seq<LevelV>, id: u128) -> Seq<LevelV>
    decreases ls.len(),
{
    if ls.len() == 0 {
        ls
    } else if level_has(ls[0], id) {
        let rest = remove_id_orders(ls[0].orders, id);
        if rest.len() == 0 {
            ls.drop_first()
        } else {
            ls.update(0, LevelV { price: ls[0].price, orders: rest })
        }
    } else {
        seq![ls[0]] + cancel_ladder(ls.drop_first(), id)
    }
}

/// How many orders with this identifier a FIFO queue holds.
pub open spec fn count_id(orders: Seq<Order>, id: u128) -> int
    decreases orders.len(),
{
    if orders.len() == 0 {
        0
    } else {
        (if orders[0].id == id {
            1int
        } else {
            0int
        }) + count_id(orders.drop_first(), id)
    }
}

/// How many orders with this identifier a ladder holds.
pub open spec fn ladder_count(ls: Seq<LevelV>, id: u128) -> int
    decreases ls.len(),
{
    if ls.len() == 0 {
        0
    } else {
        count_id(ls[0].orders, id) + ladder_count(ls.drop_first(), id)
    }
}

/// How many index entries carry this identifier.
pub open spec fn count_loc(locs: Seq<OrderLoc>, id: u128) -> int
    decreases locs.len(),
{
    if locs.len() == 0 {
        0
    } else {
        (if locs[0].id == id {
            1int
        } else {
            0int
        }) + count_loc(locs.drop_first(), id)
    }
}

/// Every entry of `locs` is an entry of `orig`.
pub open spec fn locs_sub(locs: Seq<OrderLoc>, orig: Seq<OrderLoc>) -> bool {
    forall|m: int| 0 <= m < locs.len() ==> orig.contains(#[trigger] locs[m])
}

pub proof fn lemma_locs_sub_refl(locs: Seq<OrderLoc>)
    ensures
        locs_sub(locs, locs),
{
    assert forall|m: int| 0 <= m < locs.len() implies locs.contains(#[trigger] locs[m]) by {
        assert(locs.contains(locs[m]));
    }
}

pub proof fn lemma_locs_sub_remove(locs: Seq<OrderLoc>, orig: Seq<OrderLoc>, k: int)
    requires
        locs_sub(locs, orig),
        0 <= k < locs.len(),
    ensures
        locs_sub(locs.remove(k), orig),
{
    let rem = locs.remove(k);
    assert forall|m: int| 0 <= m < rem.len() implies orig.contains(#[trigger] rem[m]) by {
        let mprev: int = if m < k {
            m
        } else {
            m + 1
        };
        assert(rem[m] == locs[mprev]);
        assert(orig.contains(locs[mprev]));
    }
}

/// Every identifier occurs in `a` at most as often as in `b`.
pub open spec fn counts_le(a: Seq<LevelV>, b: Seq<LevelV>) -> bool {
    forall|x: u128| #![trigger ladder_count(a, x)] ladder_count(a, x) <= ladder_count(b, x)
}

pub proof fn lemma_counts_le_refl(a: Seq<LevelV>)
    ensures
        counts_le(a, a),
{
}

/// The resting order with this identifier (the first, if several).
pub open spec fn find_in_orders(orders: Seq<Order>, id: u128) -> Order
    decreases orders.len(),
{
    if orders.len() == 0 {
        arbitrary()
    } else if orders[0].id == id {
        orders[0]
    } else {
        find_in_orders(orders.drop_first(), id)
    }
}

pub open spec fn find_order(ls: Seq<LevelV>, id: u128) -> Order
    decreases ls.len(),
{
    if ls.len() == 0 {
        arbitrary()
    } else if level_has(ls[0], id) {
        find_in_orders(ls[0].orders, id)
    } else {
        find_order(ls.drop_first(), id)
    }
}

// ---------------------------------------------------------------------
// Sums and counts over order queues
// ---------------------------------------------------------------------

pub proof fn lemma_sum_rem_nonneg(orders: Seq<Order>)
    ensures
        sum_rem(orders) >= 0,
    decreases orders.len(),
{
    if orders.len() > 0 {
        lemma_sum_rem_nonneg(orders.drop_first());
    }
}

pub proof fn lemma_sum_rem_push(orders: Seq<Order>, o: Order)
    ensures
        sum_rem(orders.push(o)) == sum_rem(orders) + o.remaining_quantity,
    decreases orders.len(),
{
    if orders.len() == 0 {
        assert(orders.push(o).drop_first() =~= Seq::<Order>::empty());
        assert(orders.push(o)[0] == o);
        assert(sum_rem(orders.push(o)) == o.remaining_quantity + sum_rem(
            orders.push(o).drop_first(),
        ));
    } else {
        assert(orders.push(o).drop_first() =~= orders.drop_first().push(o));
        lemma_sum_rem_push(orders.drop_first(), o);
        assert(orders.push(o)[0] == orders[0]);
        assert(sum_rem(orders.push(o)) == orders[0].remaining_quantity + sum_rem(
            orders.push(o).drop_first(),
        ));
    }
}

pub proof fn lemma_sum_rem_remove(orders: Seq<Order>, j: int)
    requires
        0 <= j < orders.len(),
    ensures
        sum_rem(orders.remove(j)) == sum_rem(orders) - orders[j].remaining_quantity,
    decreases j,
{
    if j == 0 {
        assert(orders.remove(0) =~= orders.drop_first());
    } else {
        assert(orders.remove(j).drop_first() =~= orders.drop_first().remove(j - 1));
        lemma_sum_rem_remove(orders.drop_first(), j - 1);
    }
}

pub proof fn lemma_sum_rem_update(orders: Seq<Order>, j: int, o: Order)
    requires
        0 <= j < orders.len(),
    ensures
        sum_rem(orders.update(j, o)) == sum_rem(orders) - orders[j].remaining_quantity
            + o.remaining_quantity,
    decreases j,
{
    if j == 0 {
        assert(orders.update(0, o).drop_first() =~= orders.drop_first());
    } else {
        assert(orders.update(j, o).drop_first() =~= orders.drop_first().update(j - 1, o));
        lemma_sum_rem_update(orders.drop_first(), j - 1, o);
    }
}

pub proof fn lemma_count_id_nonneg(orders: Seq<Order>, id: u128)
    ensures
        count_id(orders, id) >= 0,
    decreases orders.len(),
{
    if orders.len() > 0 {
        lemma_count_id_nonneg(orders.drop_first(), id);
    }
}

/// A queue holds an order with an identifier exactly when its count of
/// that identifier is positive.
pub proof fn lemma_count_id_has(orders: Seq<Order>, id: u128)
    ensures
        count_id(orders, id) >= 0,
        (count_id(orders, id) >= 1) == (exists|j: int|
            0 <= j < orders.len() && orders[j].id == id),
    decreases orders.len(),
{
    if orders.len() == 0 {
    } else {
        lemma_count_id_has(orders.drop_first(), id);
        if count_id(orders, id) >= 1 {
            if orders[0].id == id {
                assert(orders[0].id == id);
            } else {
                let j = choose|j: int|
                    0 <= j < orders.drop_first().len() && orders.drop_first()[j].id == id;
                assert(orders[j + 1].id == id);
            }
        }
        if exists|j: int| 0 <= j < orders.len() && orders[j].id == id {
            let j = choose|j: int| 0 <= j < orders.len() && orders[j].id == id;
            if j > 0 {
                assert(orders.drop_first()[j - 1].id == id);
            }
        }
    }
}

pub proof fn lemma_count_id_push(orders: Seq<Order>, o: Order, id: u128)
    ensures
        count_id(orders.push(o), id) == count_id(orders, id) + (if o.id == id {
            1int
        } else {
            0int
        }),
    decreases orders.len(),
{
    if orders.len() == 0 {
        assert(orders.push(o).drop_first() =~= Seq::<Order>::empty());
        assert(orders.push(o)[0] == o);
        assert(count_id(orders.push(o), id) == (if o.id == id {
            1int
        } else {
            0int
        }) + count_id(orders.push(o).drop_first(), id));
    } else {
        assert(orders.push(o).drop_first() =~= orders.drop_first().push(o));
        lemma_count_id_push(orders.drop_first(), o, id);
        assert(orders.push(o)[0] == orders[0]);
        assert(count_id(orders.push(o), id) == (if orders[0].id == id {
            1int
        } else {
            0int
        }) + count_id(orders.push(o).drop_first(), id));
    }
}

pub proof fn lemma_count_id_remove(orders: Seq<Order>, j: int, id: u128)
    requires
        0 <= j < orders.len(),
    ensures
        count_id(orders.remove(j), id) == count_id(orders, id) - (if orders[j].id == id {
            1int
        } else {
            0int
        }),
    decreases j,
{
    if j == 0 {
        assert(orders.remove(0) =~= orders.drop_first());
    } else {
        assert(orders.remove(j).drop_first() =~= orders.drop_first().remove(j - 1));
        lemma_count_id_remove(orders.drop_first(), j - 1, id);
    }
}

pub proof fn lemma_count_id_update(orders: Seq<Order>, j: int, o: Order, id: u128)
    requires
        0 <= j < orders.len(),
    ensures
        count_id(orders.update(j, o), id) == count_id(orders, id) - (if orders[j].id == id {
            1int
        } else {
            0int
        }) + (if o.id == id {
            1int
        } else {
            0int
        }),
    decreases j,
{
    if j == 0 {
        assert(orders.update(0, o).drop_first() =~= orders.drop_first());
    } else {
        assert(orders.update(j, o).drop_first() =~= orders.drop_first().update(j - 1, o));
        lemma_count_id_update(orders.drop_first(), j - 1, o, id);
    }
}

pub proof fn lemma_count_loc_nonneg(locs: Seq<OrderLoc>, id: u128)
    ensures
        count_loc(locs, id) >= 0,
    decreases locs.len(),
{
    if locs.len() > 0 {
        lemma_count_loc_nonneg(locs.drop_first(), id);
    }
}

/// An index holds an identifier exactly when its count of that
/// identifier is positive.
pub proof fn lemma_count_loc_has(locs: Seq<OrderLoc>, id: u128)
    ensures
        count_loc(locs, id) >= 0,
        (count_loc(locs, id) >= 1) == (exists|k: int| 0 <= k < locs.len() && locs[k].id == id),
    decreases locs.len(),
{
    if locs.len() == 0 {
    } else {
        lemma_count_loc_has(locs.drop_first(), id);
        if count_loc(locs, id) >= 1 {
            if locs[0].id == id {
                assert(locs[0].id == id);
            } else {
                let k = choose|k: int|
                    0 <= k < locs.drop_first().len() && locs.drop_first()[k].id == id;
                assert(locs[k + 1].id == id);
            }
        }
        if exists|k: int| 0 <= k < locs.len() && locs[k].id == id {
            let k = choose|k: int| 0 <= k < locs.len() && locs[k].id == id;
            if k > 0 {
                assert(locs.drop_first()[k - 1].id == id);
            }
        }
    }
}

pub proof fn lemma_count_loc_push(locs: Seq<OrderLoc>, l: OrderLoc, id: u128)
    ensures
        count_loc(locs.push(l), id) == count_loc(locs, id) + (if l.id == id {
            1int
        } else {
            0int
        }),
    decreases locs.len(),
{
    if locs.len() == 0 {
        assert(locs.push(l).drop_first() =~= Seq::<OrderLoc>::empty());
        assert(locs.push(l)[0] == l);
        assert(count_loc(locs.push(l), id) == (if l.id == id {
            1int
        } else {
            0int
        }) + count_loc(locs.push(l).drop_first(), id));
    } else {
        assert(locs.push(l).drop_first() =~= locs.drop_first().push(l));
        lemma_count_loc_push(locs.drop_first(), l, id);
        assert(locs.push(l)[0] == locs[0]);
        assert(count_loc(locs.push(l), id) == (if locs[0].id == id {
            1int
        } else {
            0int
        }) + count_loc(locs.push(l).drop_first(), id));
    }
}

/// Two distinct index positions with one identifier mean its count is
/// at least two.
pub proof fn lemma_count_loc_two(locs: Seq<OrderLoc>, id: u128, k1: int, k2: int)
    requires
        0 <= k1 < k2 < locs.len(),
        locs[k1].id == id,
        locs[k2].id == id,
    ensures
        count_loc(locs, id) >= 2,
    decreases locs.len(),
{
    if k1 == 0 {
        assert(locs.drop_first()[k2 - 1].id == id);
        lemma_count_loc_has(locs.drop_first(), id);
    } else {
        assert(locs.drop_first()[k1 - 1].id == id);
        assert(locs.drop_first()[k2 - 1].id == id);
        lemma_count_loc_two(locs.drop_first(), id, k1 - 1, k2 - 1);
    }
}

pub proof fn lemma_count_loc_remove(locs: Seq<OrderLoc>, k: int, id: u128)
    requires
        0 <= k < locs.len(),
    ensures
        count_loc(locs.remove(k), id) == count_loc(locs, id) - (if locs[k].id == id {
            1int
        } else {
            0int
        }),
    decreases k,
{
    if k == 0 {
        assert(locs.remove(0) =~= locs.drop_first());
    } else {
        assert(locs.remove(k).drop_first() =~= locs.drop_first().remove(k - 1));
        lemma_count_loc_remove(locs.drop_first(), k - 1, id);
    }
}

// ---------------------------------------------------------------------
// Ladder totals, counts and membership
// ---------------------------------------------------------------------

pub proof fn lemma_ladder_total_nonneg(ls: Seq<LevelV>)
    ensures
        ladder_total(ls) >= 0,
    decreases ls.len(),
{
    if ls.len() > 0 {
        lemma_sum_rem_nonneg(ls[0].orders);
        lemma_ladder_total_nonneg(ls.drop_first());
    }
}

pub proof fn lemma_ladder_count_nonneg(ls: Seq<LevelV>, id: u128)
    ensures
        ladder_count(ls, id) >= 0,
    decreases ls.len(),
{
    if ls.len() > 0 {
        lemma_count_id_nonneg(ls[0].orders, id);
        lemma_ladder_count_nonneg(ls.drop_first(), id);
    }
}

/// A ladder holds an identifier exactly when its count of it is
/// positive.
pub proof fn lemma_ladder_count_has(ls: Seq<LevelV>, id: u128)
    ensures
        ladder_count(ls, id) >= 0,
        (ladder_count(ls, id) >= 1) == ladder_has(ls, id),
    decreases ls.len(),
{
    if ls.len() == 0 {
        assert(!ladder_has(ls, id));
    } else {
        lemma_count_id_has(ls[0].orders, id);
        lemma_ladder_count_has(ls.drop_first(), id);
        if ladder_count(ls, id) >= 1 {
            if count_id(ls[0].orders, id) >= 1 {
                assert(level_has(ls[0], id));
                assert(ladder_has(ls, id));
            } else {
                let i = choose|i: int|
                    0 <= i < ls.drop_first().len() && level_has(#[trigger] ls.drop_first()[i], id);
                assert(ls[i + 1] == ls.drop_first()[i]);
                assert(ladder_has(ls, id));
            }
        }
        if ladder_has(ls, id) {
            let i = choose|i: int| 0 <= i < ls.len() && level_has(#[trigger] ls[i], id);
            if i == 0 {
                assert(count_id(ls[0].orders, id) >= 1);
            } else {
                assert(ls.drop_first()[i - 1] == ls[i]);
                assert(ladder_has(ls.drop_first(), id));
                lemma_count_id_nonneg(ls[0].orders, id);
            }
        }
    }
}

/// Holding an identifier at some price implies holding it at all.
pub proof fn lemma_has_at_implies_has(ls: Seq<LevelV>, id: u128, price: u64)
    requires
        ladder_has_at(ls, id, price),
    ensures
        ladder_has(ls, id),
{
    let i = choose|i: int|
        0 <= i < ls.len() && (#[trigger] ls[i]).price == price && level_has(ls[i], id);
    assert(0 <= i < ls.len() && level_has(ls[i], id));
}

// ---------------------------------------------------------------------
// Single matching steps: pop_head and reduce_head
// ---------------------------------------------------------------------

pub proof fn lemma_pop_head_ok(ls: Seq<LevelV>, is_bid: bool)
    requires
        ladder_ok(ls, is_bid),
        ls.len() > 0,
    ensures
        ladder_ok(pop_head(ls), is_bid),
{
    if ls[0].orders.len() == 1 {
        assert forall|i: int| 0 <= i < pop_head(ls).len() implies level_ok(
            #[trigger] pop_head(ls)[i],
            is_bid,
        ) by {
            assert(pop_head(ls)[i] == ls[i + 1]);
        }
    } else {
        let l2 = LevelV { price: ls[0].price, orders: ls[0].orders.drop_first() };
        assert forall|j: int| 0 <= j < l2.orders.len() implies order_ok(
            #[trigger] l2.orders[j],
            l2.price,
            is_bid,
        ) by {
            assert(l2.orders[j] == ls[0].orders[j + 1]);
        }
        assert(level_ok(l2, is_bid));
    }
}

pub proof fn lemma_pop_head_total(ls: Seq<LevelV>)
    requires
        ls.len() > 0,
        ls[0].orders.len() > 0,
    ensures
        ladder_total(pop_head(ls)) == ladder_total(ls) - ls[0].orders[0].remaining_quantity,
{
    if ls[0].orders.len() == 1 {
        assert(sum_rem(ls[0].orders) == ls[0].orders[0].remaining_quantity + sum_rem(
            ls[0].orders.drop_first(),
        ));
        assert(ls[0].orders.drop_first().len() == 0);
    } else {
        let l2 = LevelV { price: ls[0].price, orders: ls[0].orders.drop_first() };
        assert(ls.update(0, l2).drop_first() =~= ls.drop_first());
        assert(ladder_total(ls.update(0, l2)) == sum_rem(l2.orders) + ladder_total(
            ls.update(0, l2).drop_first(),
        ));
    }
}

pub proof fn lemma_pop_head_count(ls: Seq<LevelV>, x: u128)
    requires
        ls.len() > 0,
        ls[0].orders.len() > 0,
    ensures
        ladder_count(pop_head(ls), x) == ladder_count(ls, x) - (if ls[0].orders[0].id == x {
            1int
        } else {
            0int
        }),
{
    if ls[0].orders.len() == 1 {
        assert(count_id(ls[0].orders, x) == (if ls[0].orders[0].id == x {
            1int
        } else {
            0int
        }) + count_id(ls[0].orders.drop_first(), x));
    } else {
        let l2 = LevelV { price: ls[0].price, orders: ls[0].orders.drop_first() };
        assert(ls.update(0, l2).drop_first() =~= ls.drop_first());
        assert(ladder_count(ls.update(0, l2), x) == count_id(l2.orders, x) + ladder_count(
            ls.update(0, l2).drop_first(),
            x,
        ));
        assert(count_id(ls[0].orders, x) == (if ls[0].orders[0].id == x {
            1int
        } else {
            0int
        }) + count_id(ls[0].orders.drop_first(), x));
    }
}

/// Popping the head keeps every other order findable at its price.
pub proof fn lemma_pop_head_has_at(ls: Seq<LevelV>, id: u128, price: u64)
    requires
        ls.len() > 0,
        ls[0].orders.len() > 0,
        ladder_has_at(ls, id, price),
        id != ls[0].orders[0].id,
    ensures
        ladder_has_at(pop_head(ls), id, price),
{
    let i = choose|i: int|
        0 <= i < ls.len() && (#[trigger] ls[i]).price == price && level_has(ls[i], id);
    let j = choose|j: int| 0 <= j < ls[i].orders.len() && ls[i].orders[j].id == id;
    if ls[0].orders.len() == 1 {
        // level 0 had only its head; the order is in a later level
        assert(i != 0);
        assert(pop_head(ls)[i - 1] == ls[i]);
        assert(level_has(pop_head(ls)[i - 1], id));
        assert(ladder_has_at(pop_head(ls), id, price));
    } else {
        let l2 = LevelV { price: ls[0].price, orders: ls[0].orders.drop_first() };
        if i == 0 {
            assert(j != 0);
            assert(l2.orders[j - 1].id == id);
            assert(level_has(l2, id));
            assert(pop_head(ls)[0] == l2);
            assert(ladder_has_at(pop_head(ls), id, price));
        } else {
            assert(pop_head(ls)[i] == ls[i]);
            assert(ladder_has_at(pop_head(ls), id, price));
        }
    }
}

pub proof fn lemma_reduce_head_ok(ls: Seq<LevelV>, is_bid: bool, amt: int)
    requires
        ladder_ok(ls, is_bid),
        ls.len() > 0,
        ls[0].orders.len() > 0,
        0 < amt < ls[0].orders[0].remaining_quantity,
    ensures
        ladder_ok(reduce_head(ls, amt), is_bid),
{
    let h = ls[0].orders[0];
    let h2 = with_remaining(h, (h.remaining_quantity - amt) as u64);
    let l2 = LevelV { price: ls[0].price, orders: ls[0].orders.update(0, h2) };
    assert(order_ok(h, ls[0].price, is_bid));
    assert forall|j: int| 0 <= j < l2.orders.len() implies order_ok(
        #[trigger] l2.orders[j],
        l2.price,
        is_bid,
    ) by {
        if j != 0 {
            assert(l2.orders[j] == ls[0].orders[j]);
        }
    }
    assert(level_ok(l2, is_bid));
}

pub proof fn lemma_reduce_head_total(ls: Seq<LevelV>, amt: int)
    requires
        ls.len() > 0,
        ls[0].orders.len() > 0,
        0 < amt < ls[0].orders[0].remaining_quantity,
    ensures
        ladder_total(reduce_head(ls, amt)) == ladder_total(ls) - amt,
{
    let h = ls[0].orders[0];
    let h2 = with_remaining(h, (h.remaining_quantity - amt) as u64);
    let l2 = LevelV { price: ls[0].price, orders: ls[0].orders.update(0, h2) };
    lemma_sum_rem_update(ls[0].orders, 0, h2);
    assert(ls.update(0, l2).drop_first() =~= ls.drop_first());
    assert(ladder_total(ls.update(0, l2)) == sum_rem(l2.orders) + ladder_total(
        ls.update(0, l2).drop_first(),
    ));
}

pub proof fn lemma_reduce_head_count(ls: Seq<LevelV>, amt: int, x: u128)
    requires
        ls.len() > 0,
        ls[0].orders.len() > 0,
        0 < amt < ls[0].orders[0].remaining_quantity,
    ensures
        ladder_count(reduce_head(ls, amt), x) == ladder_count(ls, x),
{
    let h = ls[0].orders[0];
    let h2 = with_remaining(h, (h.remaining_quantity - amt) as u64);
    let l2 = LevelV { price: ls[0].price, orders: ls[0].orders.update(0, h2) };
    lemma_count_id_update(ls[0].orders, 0, h2, x);
    assert(ls.update(0, l2).drop_first() =~= ls.drop_first());
    assert(ladder_count(ls.update(0, l2), x) == count_id(l2.orders, x) + ladder_count(
        ls.update(0, l2).drop_first(),
        x,
    ));
}

/// Reducing the head keeps every order findable at its price.
pub proof fn lemma_reduce_head_has_at(ls: Seq<LevelV>, amt: int, id: u128, price: u64)
    requires
        ls.len() > 0,
        ls[0].orders.len() > 0,
        ladder_has_at(ls, id, price),
    ensures
        ladder_has_at(reduce_head(ls, amt), id, price),
{
    let i = choose|i: int|
        0 <= i < ls.len() && (#[trigger] ls[i]).price == price && level_has(ls[i], id);
    let j = choose|j: int| 0 <= j < ls[i].orders.len() && ls[i].orders[j].id == id;
    let ls2 = reduce_head(ls, amt);
    if i == 0 {
        assert(ls2[0].price == price);
        assert(ls2[0].orders[j].id == id);
        assert(level_has(ls2[0], id));
        assert(ladder_has_at(ls2, id, price));
    } else {
        assert(ls2[i] == ls[i]);
        assert(ladder_has_at(ls2, id, price));
    }
}

// ---------------------------------------------------------------------
// Matching: consume and fills
// ---------------------------------------------------------------------

pub open spec fn min_q(a: int, b: int) -> int {
    if a <= b {
        a
    } else {
        b
    }
}

pub proof fn lemma_eligible_nonneg(ls: Seq<LevelV>, b: bool, limit: u64)
    ensures
        eligible_qty(ls, b, limit) >= 0,
    decreases ls.len(),
{
    if ls.len() > 0 {
        lemma_sum_rem_nonneg(ls[0].orders);
        lemma_eligible_nonneg(ls.drop_first(), b, limit);
    }
}

pub proof fn lemma_ladder_total_split(ls: Seq<LevelV>, i: int)
    requires
        0 <= i <= ls.len(),
    ensures
        ladder_total(ls) == ladder_total(ls.take(i)) + ladder_total(ls.skip(i)),
    decreases i,
{
    if i == 0 {
        assert(ls.take(0) =~= Seq::<LevelV>::empty());
        assert(ls.skip(0) =~= ls);
    } else {
        assert(ls.take(i)[0] == ls[0]);
        assert(ls.take(i).drop_first() =~= ls.drop_first().take(i - 1));
        assert(ls.skip(i) =~= ls.drop_first().skip(i - 1));
        lemma_ladder_total_split(ls.drop_first(), i - 1);
        assert(ladder_total(ls.take(i)) == sum_rem(ls[0].orders) + ladder_total(
            ls.take(i).drop_first(),
        ));
    }
}

pub proof fn lemma_sum_fills_push(fs: Seq<FillV>, f: FillV)
    ensures
        sum_fills(fs.push(f)) == sum_fills(fs) + f.qty,
    decreases fs.len(),
{
    if fs.len() == 0 {
        assert(fs.push(f).drop_first() =~= Seq::<FillV>::empty());
        assert(fs.push(f)[0] == f);
        assert(sum_fills(fs.push(f)) == f.qty + sum_fills(fs.push(f).drop_first()));
    } else {
        assert(fs.push(f).drop_first() =~= fs.drop_first().push(f));
        lemma_sum_fills_push(fs.drop_first(), f);
        assert(fs.push(f)[0] == fs[0]);
        assert(sum_fills(fs.push(f)) == fs[0].qty + sum_fills(fs.push(f).drop_first()));
    }
}

/// With every fill positive, the total is at least the count.
pub proof fn lemma_sum_fills_bounds(fs: Seq<FillV>)
    requires
        forall|i: int| 0 <= i < fs.len() ==> (#[trigger] fs[i]).qty > 0,
    ensures
        sum_fills(fs) >= fs.len(),
    decreases fs.len(),
{
    if fs.len() > 0 {
        assert forall|i: int| 0 <= i < fs.drop_first().len() implies (#[trigger] fs.drop_first()[i]).qty
            > 0 by {
            assert(fs.drop_first()[i] == fs[i + 1]);
        }
        lemma_sum_fills_bounds(fs.drop_first());
    }
}

/// One level's quantity is no more than the ladder's.
pub proof fn lemma_level_le_total(ls: Seq<LevelV>, i: int)
    requires
        0 <= i < ls.len(),
    ensures
        sum_rem(ls[i].orders) <= ladder_total(ls),
{
    lemma_ladder_total_split(ls, i);
    lemma_ladder_total_split(ls, i + 1);
    lemma_ladder_total_take_last(ls, i);
    lemma_ladder_total_nonneg(ls.take(i));
    lemma_ladder_total_nonneg(ls.skip(i + 1));
}

pub proof fn lemma_ladder_total_take_last(ls: Seq<LevelV>, i: int)
    requires
        0 <= i < ls.len(),
    ensures
        ladder_total(ls.take(i + 1)) == ladder_total(ls.take(i)) + sum_rem(ls[i].orders),
{
    lemma_ladder_total_split(ls.take(i + 1), i);
    assert(ls.take(i + 1).take(i) =~= ls.take(i));
    assert(ls.take(i + 1).skip(i) =~= seq![ls[i]]);
    assert(seq![ls[i]].drop_first() =~= Seq::<LevelV>::empty());
    assert(ladder_total(seq![ls[i]]) == sum_rem(ls[i].orders) + ladder_total(
        seq![ls[i]].drop_first(),
    ));
}

/// When the first `i` levels cross and the next does not, the eligible
/// quantity is exactly the total of those `i` levels.
pub proof fn lemma_eligible_prefix(ls: Seq<LevelV>, b: bool, limit: u64, i: int)
    requires
        0 <= i <= ls.len(),
        forall|k: int| 0 <= k < i ==> crosses(b, limit, (#[trigger] ls[k]).price),
        i < ls.len() ==> !crosses(b, limit, ls[i].price),
    ensures
        eligible_qty(ls, b, limit) == ladder_total(ls.take(i)),
    decreases i,
{
    if i == 0 {
        assert(ls.take(0) =~= Seq::<LevelV>::empty());
    } else {
        assert(crosses(b, limit, ls[0].price));
        assert(ls.take(i)[0] == ls[0]);
        assert(ls.take(i).drop_first() =~= ls.drop_first().take(i - 1));
        assert forall|k: int| 0 <= k < i - 1 implies crosses(
            b,
            limit,
            (#[trigger] ls.drop_first()[k]).price,
        ) by {
            assert(ls.drop_first()[k] == ls[k + 1]);
        }
        if i - 1 < ls.drop_first().len() {
            assert(ls.drop_first()[i - 1] == ls[i]);
        }
        lemma_eligible_prefix(ls.drop_first(), b, limit, i - 1);
        assert(ladder_total(ls.take(i)) == sum_rem(ls[0].orders) + ladder_total(
            ls.take(i).drop_first(),
        ));
    }
}

/// The heart of the matching model: matching preserves ladder
/// well-formedness, executes exactly `min(amt, eligible)`, and removes
/// exactly that quantity from the ladder.
pub proof fn lemma_consume_fills(ls: Seq<LevelV>, is_bid: bool, b: bool, limit: u64, amt: int)
    requires
        ladder_ok(ls, is_bid),
        amt >= 0,
    ensures
        ladder_ok(consume(ls, b, limit, amt), is_bid),
        sum_fills(fills(ls, b, limit, amt)) == min_q(amt, eligible_qty(ls, b, limit)),
        ladder_total(consume(ls, b, limit, amt)) == ladder_total(ls) - sum_fills(
            fills(ls, b, limit, amt),
        ),
    decreases ls.len(), (if ls.len() > 0 { ls[0].orders.len() } else { 0 }),
{
    lemma_eligible_nonneg(ls, b, limit);
    if !can_trade(ls, b, limit, amt) {
        assert(fills(ls, b, limit, amt) == Seq::<FillV>::empty());
        if amt > 0 && ls.len() > 0 {
            assert(ls[0].orders.len() > 0);
            assert(!crosses(b, limit, ls[0].price));
        }
    } else {
        let h = ls[0].orders[0];
        lemma_sum_rem_nonneg(ls[0].orders.drop_first());
        assert(sum_rem(ls[0].orders) == h.remaining_quantity + sum_rem(ls[0].orders.drop_first()));
        lemma_eligible_nonneg(ls.drop_first(), b, limit);
        if amt < h.remaining_quantity {
            let f = FillV { maker_id: h.id, price: ls[0].price, qty: amt };
            assert(seq![f].drop_first() =~= Seq::<FillV>::empty());
            assert(seq![f].len() == 1 && seq![f][0] == f);
            assert(sum_fills(seq![f]) == f.qty + sum_fills(seq![f].drop_first()));
            assert(sum_fills(Seq::<FillV>::empty()) == 0);
            assert(sum_fills(seq![f]) == amt);
            lemma_reduce_head_ok(ls, is_bid, amt);
            lemma_reduce_head_total(ls, amt);
        } else {
            let f = FillV { maker_id: h.id, price: ls[0].price, qty: h.remaining_quantity as int };
            let rest = fills(pop_head(ls), b, limit, amt - h.remaining_quantity);
            assert((seq![f] + rest)[0] == f);
            assert((seq![f] + rest).drop_first() =~= rest);
            assert(sum_fills(seq![f] + rest) == f.qty + sum_fills(rest));
            lemma_pop_head_ok(ls, is_bid);
            lemma_pop_head_total(ls);
            lemma_consume_fills(pop_head(ls), is_bid, b, limit, amt - h.remaining_quantity);
            // eligible shifts down by the head's remaining quantity
            if ls[0].orders.len() == 1 {
                assert(pop_head(ls) == ls.drop_first());
                assert(eligible_qty(ls, b, limit) == sum_rem(ls[0].orders) + eligible_qty(
                    ls.drop_first(),
                    b,
                    limit,
                ));
                assert(sum_rem(ls[0].orders.drop_first()) == 0);
            } else {
                let l2 = LevelV { price: ls[0].price, orders: ls[0].orders.drop_first() };
                assert(pop_head(ls) == ls.update(0, l2));
                assert(ls.update(0, l2).drop_first() =~= ls.drop_first());
                assert(eligible_qty(ls.update(0, l2), b, limit) == sum_rem(l2.orders)
                    + eligible_qty(ls.drop_first(), b, limit));
            }
            assert(eligible_qty(pop_head(ls), b, limit) == eligible_qty(ls, b, limit)
                - h.remaining_quantity);
        }
    }
}

/// If the match returned less than was asked, nothing crossing is left.
pub proof fn lemma_consume_exhausts(ls: Seq<LevelV>, is_bid: bool, b: bool, limit: u64, amt: int)
    requires
        ladder_ok(ls, is_bid),
        amt >= 0,
        sum_fills(fills(ls, b, limit, amt)) < amt,
    ensures
        consume(ls, b, limit, amt).len() == 0 || !crosses(
            b,
            limit,
            consume(ls, b, limit, amt)[0].price,
        ),
    decreases ls.len(), (if ls.len() > 0 { ls[0].orders.len() } else { 0 }),
{
    if !can_trade(ls, b, limit, amt) {
        assert(fills(ls, b, limit, amt) == Seq::<FillV>::empty());
        assert(amt > 0);
        if ls.len() > 0 {
            assert(ls[0].orders.len() > 0);
        }
    } else {
        let h = ls[0].orders[0];
        if amt < h.remaining_quantity {
            let f = FillV { maker_id: h.id, price: ls[0].price, qty: amt };
            assert(seq![f].drop_first() =~= Seq::<FillV>::empty());
            assert(seq![f].len() == 1 && seq![f][0] == f);
            assert(sum_fills(seq![f]) == f.qty + sum_fills(seq![f].drop_first()));
            assert(sum_fills(Seq::<FillV>::empty()) == 0);
            assert(sum_fills(seq![f]) == amt);
        } else {
            let rest = fills(pop_head(ls), b, limit, amt - h.remaining_quantity);
            let f = FillV { maker_id: h.id, price: ls[0].price, qty: h.remaining_quantity as int };
            assert((seq![f] + rest)[0] == f);
            assert((seq![f] + rest).drop_first() =~= rest);
            assert(sum_fills(seq![f] + rest) == f.qty + sum_fills(rest));
            lemma_pop_head_ok(ls, is_bid);
            lemma_consume_exhausts(pop_head(ls), is_bid, b, limit, amt - h.remaining_quantity);
        }
    }
}

/// Matching never improves the front price of the ladder it consumes.
pub proof fn lemma_consume_front(ls: Seq<LevelV>, is_bid: bool, b: bool, limit: u64, amt: int)
    requires
        ladder_ok(ls, is_bid),
    ensures
        consume(ls, b, limit, amt).len() > 0 ==> ls.len() > 0 && !better(
            is_bid,
            consume(ls, b, limit, amt)[0].price,
            ls[0].price,
        ),
    decreases ls.len(), (if ls.len() > 0 { ls[0].orders.len() } else { 0 }),
{
    if !can_trade(ls, b, limit, amt) {
    } else {
        let h = ls[0].orders[0];
        if amt < h.remaining_quantity {
            assert(reduce_head(ls, amt)[0].price == ls[0].price);
        } else {
            lemma_pop_head_ok(ls, is_bid);
            lemma_consume_front(pop_head(ls), is_bid, b, limit, amt - h.remaining_quantity);
            if ls[0].orders.len() == 1 {
                if ls.drop_first().len() > 0 {
                    assert(ls.drop_first()[0] == ls[1]);
                    assert(better(is_bid, ls[0].price, ls[1].price));
                }
            } else {
                assert(pop_head(ls)[0].price == ls[0].price);
            }
        }
    }
}

/// Every execution is at a crossing maker price no better than the
/// front, for a positive quantity, and prices only worsen along the
/// list.
pub proof fn lemma_fills_props(ls: Seq<LevelV>, is_bid: bool, b: bool, limit: u64, amt: int)
    requires
        ladder_ok(ls, is_bid),
        amt >= 0,
    ensures
        forall|i: int|
            0 <= i < fills(ls, b, limit, amt).len() ==> {
                let f = #[trigger] fills(ls, b, limit, amt)[i];
                &&& 0 < f.qty
                &&& crosses(b, limit, f.price)
                &&& ls.len() > 0 && !better(is_bid, f.price, ls[0].price)
            },
        forall|i: int, j: int|
            0 <= i < j < fills(ls, b, limit, amt).len() ==> !better(
                is_bid,
                fills(ls, b, limit, amt)[j].price,
                fills(ls, b, limit, amt)[i].price,
            ),
    decreases ls.len(), (if ls.len() > 0 { ls[0].orders.len() } else { 0 }),
{
    if !can_trade(ls, b, limit, amt) {
    } else {
        let h = ls[0].orders[0];
        if amt < h.remaining_quantity {
        } else {
            let fs = fills(ls, b, limit, amt);
            let f = FillV { maker_id: h.id, price: ls[0].price, qty: h.remaining_quantity as int };
            let rest = fills(pop_head(ls), b, limit, amt - h.remaining_quantity);
            assert(fs == seq![f] + rest);
            lemma_pop_head_ok(ls, is_bid);
            lemma_fills_props(pop_head(ls), is_bid, b, limit, amt - h.remaining_quantity);
            // the popped ladder's front is no better than this one's
            if rest.len() > 0 {
                assert(pop_head(ls).len() > 0);
                if ls[0].orders.len() == 1 {
                    assert(pop_head(ls)[0] == ls[1]);
                    assert(better(is_bid, ls[0].price, ls[1].price));
                } else {
                    assert(pop_head(ls)[0].price == ls[0].price);
                }
                assert(!better(is_bid, pop_head(ls)[0].price, ls[0].price));
            }
            assert forall|i: int| 0 <= i < fs.len() implies {
                let fi = #[trigger] fs[i];
                &&& 0 < fi.qty
                &&& crosses(b, limit, fi.price)
                &&& ls.len() > 0 && !better(is_bid, fi.price, ls[0].price)
            } by {
                if i == 0 {
                    assert(fs[0] == f);
                } else {
                    assert(fs[i] == rest[i - 1]);
                    assert(!better(is_bid, rest[i - 1].price, pop_head(ls)[0].price));
                }
            }
            assert forall|i: int, j: int| 0 <= i < j < fs.len() implies !better(
                is_bid,
                fs[j].price,
                fs[i].price,
            ) by {
                assert(fs[j] == rest[j - 1]);
                if i == 0 {
                    assert(fs[0] == f);
                    assert(!better(is_bid, rest[j - 1].price, pop_head(ls)[0].price));
                    assert(!better(is_bid, pop_head(ls)[0].price, ls[0].price));
                } else {
                    assert(fs[i] == rest[i - 1]);
                }
            }
        }
    }
}

// ---------------------------------------------------------------------
// Resting an order
// ---------------------------------------------------------------------

pub open spec fn has_price(ls: Seq<LevelV>, p: u64) -> bool {
    exists|k: int| 0 <= k < ls.len() && (#[trigger] ls[k]).price == p
}

/// Resting a well-formed order preserves ladder well-formedness, and
/// introduces no price beyond the ladder's own and the order's.
pub proof fn lemma_insert_order_ok(ls: Seq<LevelV>, o: Order, is_bid: bool)
    requires
        ladder_ok(ls, is_bid),
        order_ok(o, o.price, is_bid),
        o.price > 0,
    ensures
        ladder_ok(insert_order(ls, o, is_bid), is_bid),
        insert_order(ls, o, is_bid).len() > 0,
        forall|i: int|
            0 <= i < insert_order(ls, o, is_bid).len() ==> (#[trigger] insert_order(
                ls,
                o,
                is_bid,
            )[i]).price == o.price || has_price(ls, insert_order(ls, o, is_bid)[i].price),
    decreases ls.len(),
{
    let res = insert_order(ls, o, is_bid);
    if ls.len() == 0 {
        assert(seq![o][0] == o);
        assert(level_ok(singleton_level(o), is_bid));
        assert(res[0].price == o.price);
    } else if ls[0].price == o.price {
        let l2 = LevelV { price: ls[0].price, orders: ls[0].orders.push(o) };
        assert forall|j: int| 0 <= j < l2.orders.len() implies order_ok(
            #[trigger] l2.orders[j],
            l2.price,
            is_bid,
        ) by {
            if j < ls[0].orders.len() {
                assert(l2.orders[j] == ls[0].orders[j]);
            } else {
                assert(l2.orders[j] == o);
            }
        }
        assert(level_ok(l2, is_bid));
        assert forall|i: int| 0 <= i < res.len() implies (#[trigger] res[i]).price == o.price
            || has_price(ls, res[i].price) by {
            if i == 0 {
                assert(res[0].price == o.price);
            } else {
                assert(res[i] == ls[i]);
                assert(has_price(ls, ls[i].price));
            }
        }
        assert forall|i: int, j: int| 0 <= i < j < res.len() implies better(
            is_bid,
            #[trigger] res[i].price,
            #[trigger] res[j].price,
        ) by {
            assert(res[i].price == ls[i].price);
            assert(res[j].price == ls[j].price);
        }
    } else if better(is_bid, ls[0].price, o.price) {
        let d = ls.drop_first();
        assert forall|i: int| 0 <= i < d.len() implies level_ok(#[trigger] d[i], is_bid) by {
            assert(d[i] == ls[i + 1]);
        }
        assert forall|i: int, j: int| 0 <= i < j < d.len() implies better(
            is_bid,
            #[trigger] d[i].price,
            #[trigger] d[j].price,
        ) by {
            assert(d[i] == ls[i + 1]);
            assert(d[j] == ls[j + 1]);
        }
        lemma_insert_order_ok(d, o, is_bid);
        let sub = insert_order(d, o, is_bid);
        assert(res == seq![ls[0]] + sub);
        assert forall|i: int| 0 <= i < res.len() implies level_ok(#[trigger] res[i], is_bid) by {
            if i == 0 {
                assert(res[0] == ls[0]);
            } else {
                assert(res[i] == sub[i - 1]);
            }
        }
        assert forall|i: int| 0 <= i < res.len() implies (#[trigger] res[i]).price == o.price
            || has_price(ls, res[i].price) by {
            if i == 0 {
                assert(res[0] == ls[0]);
                assert(has_price(ls, ls[0].price));
            } else {
                assert(res[i] == sub[i - 1]);
                if sub[i - 1].price != o.price {
                    let k = choose|k: int|
                        0 <= k < d.len() && (#[trigger] d[k]).price == sub[i - 1].price;
                    assert(ls[k + 1].price == sub[i - 1].price);
                    assert(has_price(ls, sub[i - 1].price));
                }
            }
        }
        assert forall|i: int, j: int| 0 <= i < j < res.len() implies better(
            is_bid,
            #[trigger] res[i].price,
            #[trigger] res[j].price,
        ) by {
            if i == 0 {
                assert(res[j] == sub[j - 1]);
                if sub[j - 1].price == o.price {
                } else {
                    let k = choose|k: int|
                        0 <= k < d.len() && (#[trigger] d[k]).price == sub[j - 1].price;
                    assert(d[k] == ls[k + 1]);
                    assert(better(is_bid, ls[0].price, ls[k + 1].price));
                }
            } else {
                assert(res[i] == sub[i - 1]);
                assert(res[j] == sub[j - 1]);
            }
        }
    } else {
        assert(res == seq![singleton_level(o)] + ls);
        assert(seq![o][0] == o);
        assert(level_ok(singleton_level(o), is_bid));
        assert forall|i: int| 0 <= i < res.len() implies level_ok(#[trigger] res[i], is_bid) by {
            if i > 0 {
                assert(res[i] == ls[i - 1]);
            }
        }
        assert forall|i: int| 0 <= i < res.len() implies (#[trigger] res[i]).price == o.price
            || has_price(ls, res[i].price) by {
            if i > 0 {
                assert(res[i] == ls[i - 1]);
                assert(has_price(ls, ls[i - 1].price));
            }
        }
        assert forall|i: int, j: int| 0 <= i < j < res.len() implies better(
            is_bid,
            #[trigger] res[i].price,
            #[trigger] res[j].price,
        ) by {
            assert(res[j] == ls[j - 1]);
            if i == 0 {
                assert(better(is_bid, o.price, ls[0].price));
                if j > 1 {
                    assert(better(is_bid, ls[0].price, ls[j - 1].price));
                }
            } else {
                assert(res[i] == ls[i - 1]);
            }
        }
    }
}

pub proof fn lemma_insert_order_total(ls: Seq<LevelV>, o: Order, is_bid: bool)
    ensures
        ladder_total(insert_order(ls, o, is_bid)) == ladder_total(ls) + o.remaining_quantity,
    decreases ls.len(),
{
    let res = insert_order(ls, o, is_bid);
    if ls.len() == 0 {
        assert(seq![o].drop_first() =~= Seq::<Order>::empty());
        assert(sum_rem(seq![o]) == o.remaining_quantity + sum_rem(seq![o].drop_first()));
        assert(res.drop_first() =~= Seq::<LevelV>::empty());
        assert(ladder_total(res) == sum_rem(seq![o]) + ladder_total(res.drop_first()));
    } else if ls[0].price == o.price {
        let l2 = LevelV { price: ls[0].price, orders: ls[0].orders.push(o) };
        lemma_sum_rem_push(ls[0].orders, o);
        assert(ls.update(0, l2).drop_first() =~= ls.drop_first());
        assert(ladder_total(ls.update(0, l2)) == sum_rem(l2.orders) + ladder_total(
            ls.update(0, l2).drop_first(),
        ));
    } else if better(is_bid, ls[0].price, o.price) {
        let sub = insert_order(ls.drop_first(), o, is_bid);
        lemma_insert_order_total(ls.drop_first(), o, is_bid);
        assert((seq![ls[0]] + sub)[0] == ls[0]);
        assert((seq![ls[0]] + sub).drop_first() =~= sub);
        assert(ladder_total(seq![ls[0]] + sub) == sum_rem(ls[0].orders) + ladder_total(sub));
    } else {
        assert(seq![o].drop_first() =~= Seq::<Order>::empty());
        assert(sum_rem(seq![o]) == o.remaining_quantity + sum_rem(seq![o].drop_first()));
        assert((seq![singleton_level(o)] + ls)[0] == singleton_level(o));
        assert((seq![singleton_level(o)] + ls).drop_first() =~= ls);
        assert(ladder_total(seq![singleton_level(o)] + ls) == sum_rem(seq![o]) + ladder_total(ls));
    }
}

pub proof fn lemma_insert_order_count(ls: Seq<LevelV>, o: Order, is_bid: bool, x: u128)
    ensures
        ladder_count(insert_order(ls, o, is_bid), x) == ladder_count(ls, x) + (if o.id == x {
            1int
        } else {
            0int
        }),
    decreases ls.len(),
{
    let res = insert_order(ls, o, is_bid);
    if ls.len() == 0 {
        assert(seq![o].drop_first() =~= Seq::<Order>::empty());
        assert(count_id(seq![o], x) == (if o.id == x {
            1int
        } else {
            0int
        }) + count_id(seq![o].drop_first(), x));
        assert(res.drop_first() =~= Seq::<LevelV>::empty());
        assert(ladder_count(res, x) == count_id(seq![o], x) + ladder_count(res.drop_first(), x));
    } else if ls[0].price == o.price {
        let l2 = LevelV { price: ls[0].price, orders: ls[0].orders.push(o) };
        lemma_count_id_push(ls[0].orders, o, x);
        assert(ls.update(0, l2).drop_first() =~= ls.drop_first());
        assert(ladder_count(ls.update(0, l2), x) == count_id(l2.orders, x) + ladder_count(
            ls.update(0, l2).drop_first(),
            x,
        ));
    } else if better(is_bid, ls[0].price, o.price) {
        let sub = insert_order(ls.drop_first(), o, is_bid);
        lemma_insert_order_count(ls.drop_first(), o, is_bid, x);
        assert((seq![ls[0]] + sub)[0] == ls[0]);
        assert((seq![ls[0]] + sub).drop_first() =~= sub);
        assert(ladder_count(seq![ls[0]] + sub, x) == count_id(ls[0].orders, x) + ladder_count(
            sub,
            x,
        ));
    } else {
        assert(seq![o].drop_first() =~= Seq::<Order>::empty());
        assert(count_id(seq![o], x) == (if o.id == x {
            1int
        } else {
            0int
        }) + count_id(seq![o].drop_first(), x));
        assert((seq![singleton_level(o)] + ls)[0] == singleton_level(o));
        assert((seq![singleton_level(o)] + ls).drop_first() =~= ls);
        assert(ladder_count(seq![singleton_level(o)] + ls, x) == count_id(seq![o], x)
            + ladder_count(ls, x));
    }
}

/// Every order findable before an insertion is findable after it, at
/// the same price.
pub proof fn lemma_insert_order_has_at(ls: Seq<LevelV>, o: Order, is_bid: bool, id: u128, p: u64)
    requires
        ladder_has_at(ls, id, p),
    ensures
        ladder_has_at(insert_order(ls, o, is_bid), id, p),
    decreases ls.len(),
{
    let res = insert_order(ls, o, is_bid);
    let i = choose|i: int| 0 <= i < ls.len() && (#[trigger] ls[i]).price == p && level_has(ls[i], id);
    let j = choose|j: int| 0 <= j < ls[i].orders.len() && ls[i].orders[j].id == id;
    if ls[0].price == o.price {
        if i == 0 {
            let l2 = LevelV { price: ls[0].price, orders: ls[0].orders.push(o) };
            assert(res[0] == l2);
            assert(l2.orders[j].id == id);
            assert(level_has(l2, id));
            assert(ladder_has_at(res, id, p));
        } else {
            assert(res[i] == ls[i]);
            assert(ladder_has_at(res, id, p));
        }
    } else if better(is_bid, ls[0].price, o.price) {
        let sub = insert_order(ls.drop_first(), o, is_bid);
        if i == 0 {
            assert(res[0] == ls[0]);
            assert(ladder_has_at(res, id, p));
        } else {
            assert(ls.drop_first()[i - 1] == ls[i]);
            assert(ladder_has_at(ls.drop_first(), id, p));
            lemma_insert_order_has_at(ls.drop_first(), o, is_bid, id, p);
            let k = choose|k: int|
                0 <= k < sub.len() && (#[trigger] sub[k]).price == p && level_has(sub[k], id);
            assert(res[k + 1] == sub[k]);
            assert(ladder_has_at(res, id, p));
        }
    } else {
        assert(res == seq![singleton_level(o)] + ls);
        assert(res[i + 1] == ls[i]);
        assert(ladder_has_at(res, id, p));
    }
}

/// The inserted order is findable at its price.
pub proof fn lemma_insert_order_new_at(ls: Seq<LevelV>, o: Order, is_bid: bool)
    ensures
        ladder_has_at(insert_order(ls, o, is_bid), o.id, o.price),
    decreases ls.len(),
{
    let res = insert_order(ls, o, is_bid);
    if ls.len() == 0 {
        assert(seq![o][0] == o);
        assert(level_has(res[0], o.id));
        assert(ladder_has_at(res, o.id, o.price));
    } else if ls[0].price == o.price {
        let l2 = LevelV { price: ls[0].price, orders: ls[0].orders.push(o) };
        assert(res[0] == l2);
        assert(l2.orders[ls[0].orders.len() as int] == o);
        assert(level_has(l2, o.id));
        assert(ladder_has_at(res, o.id, o.price));
    } else if better(is_bid, ls[0].price, o.price) {
        let sub = insert_order(ls.drop_first(), o, is_bid);
        lemma_insert_order_new_at(ls.drop_first(), o, is_bid);
        let k = choose|k: int|
            0 <= k < sub.len() && (#[trigger] sub[k]).price == o.price && level_has(sub[k], o.id);
        assert(res[k + 1] == sub[k]);
        assert(ladder_has_at(res, o.id, o.price));
    } else {
        assert(seq![o][0] == o);
        assert(res[0] == singleton_level(o));
        assert(level_has(res[0], o.id));
        assert(ladder_has_at(res, o.id, o.price));
    }
}

/// Where the front of the ladder ends up after an insertion.
pub proof fn lemma_insert_order_front(ls: Seq<LevelV>, o: Order, is_bid: bool)
    ensures
        insert_order(ls, o, is_bid).len() > 0,
        insert_order(ls, o, is_bid)[0].price == (if ls.len() > 0 && better(
            is_bid,
            ls[0].price,
            o.price,
        ) {
            ls[0].price
        } else {
            o.price
        }),
{
    let res = insert_order(ls, o, is_bid);
    if ls.len() == 0 {
    } else if ls[0].price == o.price {
        assert(res[0].price == ls[0].price);
    } else if better(is_bid, ls[0].price, o.price) {
        assert(res[0] == ls[0]);
    } else {
        assert(res[0] == singleton_level(o));
    }
}

/// The executable insertion point determines the model's result: if
/// the first `i` levels are better than the order's price, the order
/// lands in level `i` (same price) or in a fresh level there.
pub proof fn lemma_insert_at(ls: Seq<LevelV>, o: Order, is_bid: bool, i: int)
    requires
        0 <= i <= ls.len(),
        forall|k: int| 0 <= k < i ==> better(is_bid, (#[trigger] ls[k]).price, o.price),
        i < ls.len() ==> !better(is_bid, ls[i].price, o.price),
    ensures
        insert_order(ls, o, is_bid) == (if i < ls.len() && ls[i].price == o.price {
            ls.update(i, LevelV { price: ls[i].price, orders: ls[i].orders.push(o) })
        } else {
            ls.insert(i, singleton_level(o))
        }),
    decreases i,
{
    if i == 0 {
        if ls.len() == 0 {
            assert(ls.insert(0, singleton_level(o)) =~= seq![singleton_level(o)]);
        } else if ls[0].price == o.price {
        } else {
            assert(!better(is_bid, ls[0].price, o.price));
            assert(ls.insert(0, singleton_level(o)) =~= seq![singleton_level(o)] + ls);
        }
    } else {
        assert(better(is_bid, ls[0].price, o.price));
        assert(ls[0].price != o.price);
        let d = ls.drop_first();
        assert forall|k: int| 0 <= k < i - 1 implies better(
            is_bid,
            (#[trigger] d[k]).price,
            o.price,
        ) by {
            assert(d[k] == ls[k + 1]);
        }
        if i - 1 < d.len() {
            assert(d[i - 1] == ls[i]);
        }
        lemma_insert_at(d, o, is_bid, i - 1);
        if i < ls.len() && ls[i].price == o.price {
            let l2 = LevelV { price: ls[i].price, orders: ls[i].orders.push(o) };
            assert(d[i - 1] == ls[i]);
            assert(seq![ls[0]] + d.update(i - 1, l2) =~= ls.update(i, l2));
        } else {
            assert(seq![ls[0]] + d.insert(i - 1, singleton_level(o)) =~= ls.insert(
                i,
                singleton_level(o),
            ));
        }
    }
}

// ---------------------------------------------------------------------
// Cancellation
// ---------------------------------------------------------------------

/// Excising the first order with an identifier, located at position
/// `j`, is a positional removal; the found order is `orders[j]`.
pub proof fn lemma_remove_id_at(orders: Seq<Order>, id: u128, j: int)
    requires
        0 <= j < orders.len(),
        orders[j].id == id,
        forall|k: int| 0 <= k < j ==> orders[k].id != id,
    ensures
        remove_id_orders(orders, id) == orders.remove(j),
        find_in_orders(orders, id) == orders[j],
    decreases j,
{
    if j == 0 {
        assert(orders.remove(0) =~= orders.drop_first());
    } else {
        assert(orders[0].id != id);
        let d = orders.drop_first();
        assert forall|k: int| 0 <= k < j - 1 implies d[k].id != id by {
            assert(d[k] == orders[k + 1]);
        }
        assert(d[j - 1] == orders[j]);
        lemma_remove_id_at(d, id, j - 1);
        assert(seq![orders[0]] + d.remove(j - 1) =~= orders.remove(j));
    }
}

/// The removed order carries the identifier; every other order's
/// count is untouched, and the sum drops by the removed remainder.
pub proof fn lemma_remove_id_props(orders: Seq<Order>, id: u128)
    requires
        exists|j: int| 0 <= j < orders.len() && orders[j].id == id,
    ensures
        find_in_orders(orders, id).id == id,
        exists|j: int| 0 <= j < orders.len() && orders[j] == find_in_orders(orders, id),
        sum_rem(remove_id_orders(orders, id)) == sum_rem(orders) - find_in_orders(
            orders,
            id,
        ).remaining_quantity,
        forall|x: u128|
            count_id(remove_id_orders(orders, id), x) == count_id(orders, x) - (if x == id {
                1int
            } else {
                0int
            }),
    decreases orders.len(),
{
    if orders[0].id == id {
        assert(find_in_orders(orders, id) == orders[0]);
        assert(remove_id_orders(orders, id) == orders.drop_first());
        assert forall|x: u128|
            count_id(remove_id_orders(orders, id), x) == count_id(orders, x) - (if x == id {
                1int
            } else {
                0int
            }) by {
            assert(count_id(orders, x) == (if orders[0].id == x {
                1int
            } else {
                0int
            }) + count_id(orders.drop_first(), x));
        }
    } else {
        let d = orders.drop_first();
        let j0 = choose|j: int| 0 <= j < orders.len() && orders[j].id == id;
        assert(j0 > 0);
        assert(d[j0 - 1].id == id);
        lemma_remove_id_props(d, id);
        let res = remove_id_orders(orders, id);
        assert(res == seq![orders[0]] + remove_id_orders(d, id));
        assert(res[0] == orders[0]);
        assert(res.drop_first() =~= remove_id_orders(d, id));
        assert(sum_rem(res) == orders[0].remaining_quantity + sum_rem(res.drop_first()));
        let jf = choose|j: int| 0 <= j < d.len() && d[j] == find_in_orders(d, id);
        assert(orders[jf + 1] == find_in_orders(orders, id));
        assert forall|x: u128|
            count_id(res, x) == count_id(orders, x) - (if x == id {
                1int
            } else {
                0int
            }) by {
            assert(count_id(res, x) == (if res[0].id == x {
                1int
            } else {
                0int
            }) + count_id(res.drop_first(), x));
            assert(count_id(orders, x) == (if orders[0].id == x {
                1int
            } else {
                0int
            }) + count_id(d, x));
        }
    }
}

/// The executable cancel's location determines the model's result: if
/// the first level holding the identifier is level `i`, the model
/// updates or removes exactly that level.
pub proof fn lemma_cancel_at(ls: Seq<LevelV>, id: u128, i: int)
    requires
        0 <= i < ls.len(),
        level_has(ls[i], id),
        forall|k: int| 0 <= k < i ==> !level_has(#[trigger] ls[k], id),
    ensures
        cancel_ladder(ls, id) == (if remove_id_orders(ls[i].orders, id).len() == 0 {
            ls.remove(i)
        } else {
            ls.update(i, LevelV { price: ls[i].price, orders: remove_id_orders(ls[i].orders, id) })
        }),
        find_order(ls, id) == find_in_orders(ls[i].orders, id),
    decreases i,
{
    if i == 0 {
        if remove_id_orders(ls[0].orders, id).len() == 0 {
            assert(ls.remove(0) =~= ls.drop_first());
        }
    } else {
        assert(!level_has(ls[0], id));
        let d = ls.drop_first();
        assert(d[i - 1] == ls[i]);
        assert forall|k: int| 0 <= k < i - 1 implies !level_has(#[trigger] d[k], id) by {
            assert(d[k] == ls[k + 1]);
        }
        lemma_cancel_at(d, id, i - 1);
        if remove_id_orders(ls[i].orders, id).len() == 0 {
            assert(seq![ls[0]] + d.remove(i - 1) =~= ls.remove(i));
        } else {
            let l2 = LevelV { price: ls[i].price, orders: remove_id_orders(ls[i].orders, id) };
            assert(seq![ls[0]] + d.update(i - 1, l2) =~= ls.update(i, l2));
        }
    }
}

/// Cancelling an absent identifier changes nothing.
pub proof fn lemma_cancel_absent(ls: Seq<LevelV>, id: u128)
    requires
        !ladder_has(ls, id),
    ensures
        cancel_ladder(ls, id) == ls,
    decreases ls.len(),
{
    if ls.len() == 0 {
    } else {
        assert(!level_has(ls[0], id));
        let d = ls.drop_first();
        assert forall|k: int| 0 <= k < d.len() implies !level_has(#[trigger] d[k], id) by {
            assert(d[k] == ls[k + 1]);
            assert(!level_has(ls[k + 1], id));
        }
        assert(!ladder_has(d, id));
        lemma_cancel_absent(d, id);
        assert(seq![ls[0]] + d =~= ls);
    }
}

/// What cancellation does to a well-formed ladder: well-formedness is
/// preserved, the cancelled order's quantity leaves the total, its
/// count drops to match, every other order stays findable, and the
/// front price never improves.
pub proof fn lemma_cancel_ladder_props(ls: Seq<LevelV>, id: u128, is_bid: bool)
    requires
        ladder_ok(ls, is_bid),
        ladder_has(ls, id),
    ensures
        ladder_ok(cancel_ladder(ls, id), is_bid),
        find_order(ls, id).id == id,
        order_ok(find_order(ls, id), find_order(ls, id).price, is_bid),
        ladder_has_at(ls, id, find_order(ls, id).price),
        ladder_total(cancel_ladder(ls, id)) == ladder_total(ls) - find_order(
            ls,
            id,
        ).remaining_quantity,
        forall|x: u128|
            ladder_count(cancel_ladder(ls, id), x) == ladder_count(ls, x) - (if x == id {
                1int
            } else {
                0int
            }),
        forall|x: u128, p: u64|
            x != id && ladder_has_at(ls, x, p) ==> ladder_has_at(cancel_ladder(ls, id), x, p),
        cancel_ladder(ls, id).len() > 0 ==> !better(
            is_bid,
            cancel_ladder(ls, id)[0].price,
            ls[0].price,
        ),
    decreases ls.len(),
{
    let res = cancel_ladder(ls, id);
    if level_has(ls[0], id) {
        let j0 = choose|j: int| 0 <= j < ls[0].orders.len() && ls[0].orders[j].id == id;
        lemma_remove_id_props(ls[0].orders, id);
        let rest = remove_id_orders(ls[0].orders, id);
        assert(find_order(ls, id) == find_in_orders(ls[0].orders, id));
        let jf = choose|j: int|
            0 <= j < ls[0].orders.len() && ls[0].orders[j] == find_in_orders(ls[0].orders, id);
        assert(order_ok(ls[0].orders[jf], ls[0].price, is_bid));
        assert(level_has(ls[0], id));
        assert(ladder_has_at(ls, id, ls[0].price));
        assert(find_order(ls, id).price == ls[0].price);
        lemma_sum_rem_nonneg(rest);
        if rest.len() == 0 {
            assert(res == ls.drop_first());
            assert forall|i: int| 0 <= i < res.len() implies level_ok(#[trigger] res[i], is_bid) by {
                assert(res[i] == ls[i + 1]);
            }
            assert forall|i: int, j: int| 0 <= i < j < res.len() implies better(
                is_bid,
                #[trigger] res[i].price,
                #[trigger] res[j].price,
            ) by {
                assert(res[i] == ls[i + 1]);
                assert(res[j] == ls[j + 1]);
            }
            // total: the emptied level held exactly the removed order
            assert(sum_rem(rest) == 0);
            assert forall|x: u128|
                ladder_count(res, x) == ladder_count(ls, x) - (if x == id {
                    1int
                } else {
                    0int
                }) by {
                assert(count_id(rest, x) == count_id(ls[0].orders, x) - (if x == id {
                    1int
                } else {
                    0int
                }));
                lemma_count_id_has(rest, x);
                assert(count_id(rest, x) == 0);
            }
            assert forall|x: u128, p: u64|
                x != id && ladder_has_at(ls, x, p) implies ladder_has_at(res, x, p) by {
                let i = choose|i: int|
                    0 <= i < ls.len() && (#[trigger] ls[i]).price == p && level_has(ls[i], x);
                if i == 0 {
                    let jx = choose|j: int| 0 <= j < ls[0].orders.len() && ls[0].orders[j].id == x;
                    lemma_count_id_has(ls[0].orders, x);
                    assert(count_id(rest, x) == count_id(ls[0].orders, x));
                    lemma_count_id_has(rest, x);
                    assert(count_id(rest, x) >= 1);
                    assert(false);
                } else {
                    assert(res[i - 1] == ls[i]);
                    assert(ladder_has_at(res, x, p));
                }
            }
            if res.len() > 0 {
                assert(res[0] == ls[1]);
                assert(better(is_bid, ls[0].price, ls[1].price));
            }
        } else {
            let l2 = LevelV { price: ls[0].price, orders: rest };
            assert(res == ls.update(0, l2));
            assert forall|j: int| 0 <= j < rest.len() implies order_ok(
                #[trigger] rest[j],
                l2.price,
                is_bid,
            ) by {
                lemma_remove_id_is_sub(ls[0].orders, id, j);
            }
            assert(level_ok(l2, is_bid));
            assert forall|i: int| 0 <= i < res.len() implies level_ok(#[trigger] res[i], is_bid) by {
                if i != 0 {
                    assert(res[i] == ls[i]);
                }
            }
            assert forall|i: int, j: int| 0 <= i < j < res.len() implies better(
                is_bid,
                #[trigger] res[i].price,
                #[trigger] res[j].price,
            ) by {
                assert(res[i].price == ls[i].price);
                assert(res[j].price == ls[j].price);
            }
            assert(ls.update(0, l2).drop_first() =~= ls.drop_first());
            assert(ladder_total(res) == sum_rem(rest) + ladder_total(ls.drop_first()));
            assert forall|x: u128|
                ladder_count(res, x) == ladder_count(ls, x) - (if x == id {
                    1int
                } else {
                    0int
                }) by {
                assert(ladder_count(res, x) == count_id(rest, x) + ladder_count(
                    ls.drop_first(),
                    x,
                ));
            }
            assert forall|x: u128, p: u64|
                x != id && ladder_has_at(ls, x, p) implies ladder_has_at(res, x, p) by {
                let i = choose|i: int|
                    0 <= i < ls.len() && (#[trigger] ls[i]).price == p && level_has(ls[i], x);
                if i == 0 {
                    lemma_count_id_has(ls[0].orders, x);
                    assert(count_id(rest, x) == count_id(ls[0].orders, x));
                    lemma_count_id_has(rest, x);
                    let jx = choose|j: int| 0 <= j < rest.len() && rest[j].id == x;
                    assert(level_has(l2, x));
                    assert(res[0] == l2);
                    assert(ladder_has_at(res, x, p));
                } else {
                    assert(res[i] == ls[i]);
                    assert(ladder_has_at(res, x, p));
                }
            }
            assert(res[0].price == ls[0].price);
        }
    } else {
        let d = ls.drop_first();
        assert forall|i: int| 0 <= i < d.len() implies level_ok(#[trigger] d[i], is_bid) by {
            assert(d[i] == ls[i + 1]);
        }
        assert forall|i: int, j: int| 0 <= i < j < d.len() implies better(
            is_bid,
            #[trigger] d[i].price,
            #[trigger] d[j].price,
        ) by {
            assert(d[i] == ls[i + 1]);
            assert(d[j] == ls[j + 1]);
        }
        let iw = choose|i: int| 0 <= i < ls.len() && level_has(#[trigger] ls[i], id);
        assert(iw > 0);
        assert(d[iw - 1] == ls[iw]);
        assert(ladder_has(d, id));
        lemma_cancel_ladder_props(d, id, is_bid);
        let sub = cancel_ladder(d, id);
        assert(res == seq![ls[0]] + sub);
        assert(res[0] == ls[0]);
        assert(res.drop_first() =~= sub);
        assert(find_order(ls, id) == find_order(d, id));
        // find_order's location carries up one level
        let ip = choose|i: int|
            0 <= i < d.len() && (#[trigger] d[i]).price == find_order(d, id).price && level_has(
                d[i],
                id,
            );
        assert(ls[ip + 1] == d[ip]);
        assert(ladder_has_at(ls, id, find_order(ls, id).price));
        assert(ladder_total(res) == sum_rem(ls[0].orders) + ladder_total(sub));
        assert forall|x: u128|
            ladder_count(res, x) == ladder_count(ls, x) - (if x == id {
                1int
            } else {
                0int
            }) by {
            assert(ladder_count(res, x) == count_id(res[0].orders, x) + ladder_count(
                res.drop_first(),
                x,
            ));
        }
        assert forall|i: int| 0 <= i < res.len() implies level_ok(#[trigger] res[i], is_bid) by {
            if i > 0 {
                assert(res[i] == sub[i - 1]);
            }
        }
        assert forall|i: int, j: int| 0 <= i < j < res.len() implies better(
            is_bid,
            #[trigger] res[i].price,
            #[trigger] res[j].price,
        ) by {
            if i == 0 {
                assert(res[j] == sub[j - 1]);
                if sub.len() > 0 {
                    assert(!better(is_bid, sub[0].price, d[0].price));
                    if j - 1 > 0 {
                        assert(better(is_bid, sub[0].price, sub[j - 1].price));
                    }
                    assert(better(is_bid, ls[0].price, d[0].price));
                }
            } else {
                assert(res[i] == sub[i - 1]);
                assert(res[j] == sub[j - 1]);
            }
        }
        assert forall|x: u128, p: u64|
            x != id && ladder_has_at(ls, x, p) implies ladder_has_at(res, x, p) by {
            let i = choose|i: int|
                0 <= i < ls.len() && (#[trigger] ls[i]).price == p && level_has(ls[i], x);
            if i == 0 {
                assert(res[0] == ls[0]);
                assert(ladder_has_at(res, x, p));
            } else {
                assert(d[i - 1] == ls[i]);
                assert(ladder_has_at(d, x, p));
                let k = choose|k: int|
                    0 <= k < sub.len() && (#[trigger] sub[k]).price == p && level_has(sub[k], x);
                assert(res[k + 1] == sub[k]);
                assert(ladder_has_at(res, x, p));
            }
        }
    }
}

/// Sum of the quantities of produced trades.
pub open spec fn sum_trades(ts: Seq<Trade>) -> int
    decreases ts.len(),
{
    if ts.len() == 0 {
        0
    } else {
        ts[0].quantity + sum_trades(ts.drop_first())
    }
}

/// Trades that correspond pointwise to fills carry the same total.
pub proof fn lemma_sum_trades_matches(
    ts: Seq<Trade>,
    fs: Seq<FillV>,
    taker_id: u128,
    b: bool,
)
    requires
        ts.len() == fs.len(),
        forall|i: int| 0 <= i < fs.len() ==> trade_matches(#[trigger] ts[i], fs[i], taker_id, b),
    ensures
        sum_trades(ts) == sum_fills(fs),
    decreases ts.len(),
{
    if ts.len() > 0 {
        assert(trade_matches(ts[0], fs[0], taker_id, b));
        assert forall|i: int|
            0 <= i < fs.drop_first().len() implies trade_matches(
            #[trigger] ts.drop_first()[i],
            fs.drop_first()[i],
            taker_id,
            b,
        ) by {
            assert(ts.drop_first()[i] == ts[i + 1]);
            assert(fs.drop_first()[i] == fs[i + 1]);
        }
        lemma_sum_trades_matches(ts.drop_first(), fs.drop_first(), taker_id, b);
    }
}

/// Cancelling a freshly rested order undoes the insertion exactly.
pub proof fn lemma_cancel_insert(ls: Seq<LevelV>, o: Order, is_bid: bool)
    requires
        ladder_ok(ls, is_bid),
        !ladder_has(ls, o.id),
    ensures
        cancel_ladder(insert_order(ls, o, is_bid), o.id) == ls,
    decreases ls.len(),
{
    let ins = insert_order(ls, o, is_bid);
    if ls.len() == 0 {
        assert(seq![o][0] == o);
        assert(level_has(ins[0], o.id));
        assert(remove_id_orders(seq![o], o.id) =~= Seq::<Order>::empty());
        assert(cancel_ladder(ins, o.id) =~= ins.drop_first());
        assert(ins.drop_first() =~= ls);
    } else if ls[0].price == o.price {
        let pushed = ls[0].orders.push(o);
        let l2 = LevelV { price: ls[0].price, orders: pushed };
        assert(ins == ls.update(0, l2));
        assert(pushed[ls[0].orders.len() as int] == o);
        assert(level_has(l2, o.id));
        assert(!level_has(ls[0], o.id));
        assert forall|k: int| 0 <= k < ls[0].orders.len() implies pushed[k].id != o.id by {
            assert(pushed[k] == ls[0].orders[k]);
        }
        lemma_remove_id_at(pushed, o.id, ls[0].orders.len() as int);
        assert(pushed.remove(ls[0].orders.len() as int) =~= ls[0].orders);
        assert(remove_id_orders(pushed, o.id) == ls[0].orders);
        assert(ls[0].orders.len() > 0);
        assert(cancel_ladder(ins, o.id) == ins.update(
            0,
            LevelV { price: ins[0].price, orders: ls[0].orders },
        ));
        assert(cancel_ladder(ins, o.id) =~= ls);
    } else if better(is_bid, ls[0].price, o.price) {
        let d = ls.drop_first();
        assert forall|i: int| 0 <= i < d.len() implies level_ok(#[trigger] d[i], is_bid) by {
            assert(d[i] == ls[i + 1]);
        }
        assert forall|i: int, j: int| 0 <= i < j < d.len() implies better(
            is_bid,
            #[trigger] d[i].price,
            #[trigger] d[j].price,
        ) by {
            assert(d[i] == ls[i + 1]);
            assert(d[j] == ls[j + 1]);
        }
        assert forall|i: int| 0 <= i < d.len() implies !level_has(#[trigger] d[i], o.id) by {
            assert(d[i] == ls[i + 1]);
            assert(!level_has(ls[i + 1], o.id));
        }
        assert(!ladder_has(d, o.id));
        lemma_cancel_insert(d, o, is_bid);
        let sub = insert_order(d, o, is_bid);
        assert(ins == seq![ls[0]] + sub);
        assert(ins[0] == ls[0]);
        assert(!level_has(ls[0], o.id));
        assert(ins.drop_first() =~= sub);
        assert(cancel_ladder(ins, o.id) == seq![ls[0]] + cancel_ladder(sub, o.id));
        assert(seq![ls[0]] + d =~= ls);
    } else {
        assert(ins == seq![singleton_level(o)] + ls);
        assert(seq![o][0] == o);
        assert(level_has(ins[0], o.id));
        assert(remove_id_orders(seq![o], o.id) =~= Seq::<Order>::empty());
        assert(cancel_ladder(ins, o.id) =~= ins.drop_first());
        assert(ins.drop_first() =~= ls);
    }
}

/// Each order of the excised queue is one of the original's.
pub proof fn lemma_remove_id_is_sub(orders: Seq<Order>, id: u128, j: int)
    requires
        0 <= j < remove_id_orders(orders, id).len(),
    ensures
        exists|k: int|
            0 <= k < orders.len() && orders[k] == remove_id_orders(orders, id)[j],
    decreases orders.len(),
{
    if orders.len() == 0 {
    } else if orders[0].id == id {
        assert(orders[j + 1] == remove_id_orders(orders, id)[j]);
    } else {
        let res = remove_id_orders(orders, id);
        assert(res == seq![orders[0]] + remove_id_orders(orders.drop_first(), id));
        if j == 0 {
            assert(orders[0] == res[0]);
        } else {
            lemma_remove_id_is_sub(orders.drop_first(), id, j - 1);
            let k = choose|k: int|
                0 <= k < orders.drop_first().len() && orders.drop_first()[k] == remove_id_orders(
                    orders.drop_first(),
                    id,
                )[j - 1];
            assert(orders[k + 1] == res[j]);
        }
    }
}

} // verus!
