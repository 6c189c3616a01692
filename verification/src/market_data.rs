//! The market-data ingest path: a single-writer processor that owns
//! one order book, enforces strictly increasing sequence numbers,
//! dispatches each message to the book, and keeps its own statistics.

use vstd::prelude::*;
use crate::external;
use crate::model::{
    better, can_trade, crosses, fills, insert_order, ladder_has, lemma_cancel_ladder_props,
    lemma_insert_at, lemma_insert_order_total, lemma_ladder_total_nonneg, lemma_sum_info_nonneg,
    lemma_sum_info_split, lemma_sum_info_take_last, replace_qty, singleton_level, sum_fills,
    sum_info_qty, with_remaining, FillV, LevelV,
};
use crate::orderbook::OrderBook;
use crate::types::{
    bump, sat_add, sat_cap, BookSnapshotMessage, LevelInfo, MarketDataMessage, MarketDataStats,
    Order, OrderBookError, OrderType, Side,
};

verus! {

pub struct MarketDataProcessor {
    pub order_book: OrderBook,
    pub stats: MarketDataStats,
}

/// The sequence number a message carries.
pub open spec fn msg_seq(message: MarketDataMessage) -> u64 {
    match message {
        MarketDataMessage::NewOrder(m) => m.sequence_number,
        MarketDataMessage::CancelOrder(m) => m.sequence_number,
        MarketDataMessage::ModifyOrder(m) => m.sequence_number,
        MarketDataMessage::Trade(m) => m.sequence_number,
        MarketDataMessage::BookSnapshot(m) => m.sequence_number,
    }
}

/// The aggregate-quantity room a message needs so that no u64 total
/// can overflow while it is applied.
pub open spec fn message_fits(book: OrderBook, message: MarketDataMessage) -> bool {
    match message {
        MarketDataMessage::NewOrder(m) => book.total_resting() + m.quantity <= u64::MAX,
        MarketDataMessage::ModifyOrder(m) => book.book_has_id(m.order_id)
            ==> book.total_resting() - book.find_resting(m.order_id).remaining_quantity
            + replace_qty(book.find_resting(m.order_id), m.new_quantity) <= u64::MAX,
        MarketDataMessage::BookSnapshot(m) => sum_info_qty(m.bids@) + sum_info_qty(m.asks@)
            <= u64::MAX,
        _ => true,
    }
}

/// A snapshot that states a plausible book: positive prices and
/// quantities, bids strictly descending, asks strictly ascending,
/// and not crossed.
pub open spec fn snapshot_wf(m: BookSnapshotMessage) -> bool {
    &&& forall|i: int|
        0 <= i < m.bids@.len() ==> (#[trigger] m.bids@[i]).price > 0 && m.bids@[i].quantity > 0
    &&& forall|i: int|
        0 <= i < m.asks@.len() ==> (#[trigger] m.asks@[i]).price > 0 && m.asks@[i].quantity > 0
    &&& forall|i: int, j: int|
        0 <= i < j < m.bids@.len() ==> (#[trigger] m.bids@[i]).price > (
        #[trigger] m.bids@[j]).price
    &&& forall|i: int, j: int|
        0 <= i < j < m.asks@.len() ==> (#[trigger] m.asks@[i]).price < (
        #[trigger] m.asks@[j]).price
    &&& (m.bids@.len() > 0 && m.asks@.len() > 0 ==> m.bids@[0].price < m.asks@[0].price)
}

/// A ladder rebuilt from a snapshot: one level per stated level, each
/// holding a single synthetic order of the stated quantity.
pub open spec fn single_order_levels(ls: Seq<LevelV>, infos: Seq<LevelInfo>) -> bool {
    &&& ls.len() == infos.len()
    &&& forall|i: int|
        0 <= i < ls.len() ==> {
            let l = #[trigger] ls[i];
            &&& l.price == infos[i].price
            &&& l.orders.len() == 1
            &&& l.orders[0].remaining_quantity == infos[i].quantity
            &&& l.orders[0].quantity == infos[i].quantity
        }
}

/// The order a NewOrder message stands for, under the identifier and
/// timestamp the book assigns.
pub open spec fn msg_order(
    m: crate::types::NewOrderMessage,
    oid: u128,
    ts: u64,
) -> Order {
    Order {
        id: oid,
        side: m.side,
        order_type: m.order_type,
        price: m.price,
        quantity: m.quantity,
        remaining_quantity: m.quantity,
        timestamp: ts,
        user_id: Option::None,
    }
}

/// What a successfully processed message does to the book.
pub open spec fn process_ok_outcome(
    prev: OrderBook,
    post: OrderBook,
    message: MarketDataMessage,
) -> bool {
    match message {
        MarketDataMessage::NewOrder(m) => exists|oid: u128, ts: u64, trades: Seq<crate::types::Trade>|
            #[trigger] OrderBook::add_outcome(prev, post, msg_order(m, oid, ts), trades),
        MarketDataMessage::CancelOrder(m) => {
            &&& prev.book_has_id(m.order_id)
            &&& post.bids_v() == crate::model::cancel_ladder(prev.bids_v(), m.order_id)
            &&& post.asks_v() == crate::model::cancel_ladder(prev.asks_v(), m.order_id)
        },
        MarketDataMessage::ModifyOrder(m) => {
            &&& prev.book_has_id(m.order_id)
            &&& exists|trades: Seq<crate::types::Trade>|
                #[trigger] OrderBook::modify_outcome(
                    prev,
                    post,
                    m.order_id,
                    Option::Some(legacy_price(m.new_price)),
                    m.new_quantity,
                    trades,
                )
        },
        MarketDataMessage::Trade(_) => {
            &&& post.bids_v() == prev.bids_v()
            &&& post.asks_v() == prev.asks_v()
            &&& post.orders@ == prev.orders@
        },
        MarketDataMessage::BookSnapshot(m) => {
            &&& all_levels_valid(m)
            &&& (snapshot_wf(m) ==> single_order_levels(post.bids_v(), m.bids@)
                && single_order_levels(post.asks_v(), m.asks@))
        },
    }
}

/// The legacy substitution of zero for an absent modification price.
pub open spec fn legacy_price(new_price: Option<u64>) -> u64 {
    match new_price {
        Option::Some(p) => p,
        Option::None => 0,
    }
}

/// The per-variant counter a processed message steps.
pub open spec fn variant_counter_bumped(
    s: MarketDataStats,
    message: MarketDataMessage,
) -> MarketDataStats {
    match message {
        MarketDataMessage::NewOrder(_) => MarketDataStats { new_orders: bump(s.new_orders), ..s },
        MarketDataMessage::CancelOrder(_) => MarketDataStats {
            cancellations: bump(s.cancellations),
            ..s
        },
        MarketDataMessage::ModifyOrder(_) => MarketDataStats {
            modifications: bump(s.modifications),
            ..s
        },
        MarketDataMessage::Trade(_) => MarketDataStats { trades: bump(s.trades), ..s },
        MarketDataMessage::BookSnapshot(_) => MarketDataStats {
            snapshots: bump(s.snapshots),
            ..s
        },
    }
}

/// The processor's statistics after one successful message: the
/// variant's counter steps, a latency is folded in, and the message
/// counter steps.
pub open spec fn process_stats_ok(
    s0: MarketDataStats,
    s1: MarketDataStats,
    message: MarketDataMessage,
) -> bool {
    exists|e: u64|
        s1 == (MarketDataStats {
            messages_processed: bump(s0.messages_processed),
            ..(#[trigger] variant_counter_bumped(s0, message).with_latency(e))
        })
}

/// One attempt of the batch path on one message: either the message
/// was applied — a fresh sequence number, with `process`'s book
/// outcome and statistics — or it failed, and then only the error
/// counter steps (plus the gap counter when a stale sequence number
/// was the cause). Either way the book stays well formed and its
/// sequence number never decreases.
pub open spec fn step_outcome(
    pa: MarketDataProcessor,
    pb: MarketDataProcessor,
    m: MarketDataMessage,
    applied: bool,
) -> bool {
    &&& pb.order_book.wf()
    &&& pb.order_book.last_sequence_number >= pa.order_book.last_sequence_number
    &&& if applied {
        &&& msg_seq(m) > pa.order_book.last_sequence_number
        &&& pb.order_book.last_sequence_number == msg_seq(m)
        &&& process_ok_outcome(pa.order_book, pb.order_book, m)
        &&& process_stats_ok(pa.stats, pb.stats, m)
    } else {
        pb.stats == (MarketDataStats { errors: bump(pa.stats.errors), ..pa.stats }) || pb.stats
            == (MarketDataStats {
            errors: bump(pa.stats.errors),
            sequence_gaps: bump(pa.stats.sequence_gaps),
            ..pa.stats
        })
    }
}

/// A batch applied to a message list in input order: each message is
/// one `step_outcome`, and `n` counts the applied ones.
pub open spec fn batch_steps(
    p0: MarketDataProcessor,
    p1: MarketDataProcessor,
    msgs: Seq<MarketDataMessage>,
    n: int,
) -> bool
    decreases msgs.len(),
{
    if msgs.len() == 0 {
        p1 == p0 && n == 0
    } else {
        exists|pmid: MarketDataProcessor, applied: bool|
            #[trigger] step_outcome(pmid, p1, msgs.last(), applied) && batch_steps(
                p0,
                pmid,
                msgs.drop_last(),
                n - (if applied {
                    1int
                } else {
                    0int
                }),
            )
    }
}

/// Some stated level has a zero price.
pub open spec fn has_zero_price_infos(infos: Seq<LevelInfo>) -> bool {
    exists|i: int| 0 <= i < infos.len() && (#[trigger] infos[i]).price == 0
}

/// Some stated level has a zero quantity.
pub open spec fn has_zero_qty_infos(infos: Seq<LevelInfo>) -> bool {
    exists|i: int| 0 <= i < infos.len() && (#[trigger] infos[i]).quantity == 0
}

pub open spec fn has_zero_price_level(m: BookSnapshotMessage) -> bool {
    has_zero_price_infos(m.bids@) || has_zero_price_infos(m.asks@)
}

pub open spec fn has_zero_qty_level(m: BookSnapshotMessage) -> bool {
    has_zero_qty_infos(m.bids@) || has_zero_qty_infos(m.asks@)
}

/// Every stated level carries a positive price and quantity — what
/// the book's validation will accept.
pub open spec fn all_levels_valid(m: BookSnapshotMessage) -> bool {
    &&& forall|i: int|
        0 <= i < m.bids@.len() ==> (#[trigger] m.bids@[i]).price > 0 && m.bids@[i].quantity > 0
    &&& forall|i: int|
        0 <= i < m.asks@.len() ==> (#[trigger] m.asks@[i]).price > 0 && m.asks@[i].quantity > 0
}

/// The first unacceptable level's rejection, if any: the error the
/// book's own validation would raise for it.
fn check_levels(infos: &Vec<LevelInfo>) -> (r: Option<OrderBookError>)
    ensures
        match r {
            Some(e) => match e {
                OrderBookError::InvalidPrice { price } => price == 0 && has_zero_price_infos(
                    infos@,
                ),
                OrderBookError::InvalidQuantity { quantity } => quantity == 0
                    && has_zero_qty_infos(infos@),
                _ => false,
            },
            None => forall|i: int|
                0 <= i < infos@.len() ==> (#[trigger] infos@[i]).price > 0
                    && infos@[i].quantity > 0,
        },
{
    let mut i: usize = 0;
    while i < infos.len()
        invariant
            0 <= i <= infos@.len(),
            forall|k: int|
                0 <= k < i ==> (#[trigger] infos@[k]).price > 0 && infos@[k].quantity > 0,
        decreases infos@.len() - i,
    {
        if infos[i].price == 0 {
            proof {
                assert(infos@[i as int].price == 0);
                assert(has_zero_price_infos(infos@));
            }
            return Some(OrderBookError::InvalidPrice { price: 0 });
        }
        if infos[i].quantity == 0 {
            proof {
                assert(infos@[i as int].quantity == 0);
                assert(has_zero_qty_infos(infos@));
            }
            return Some(OrderBookError::InvalidQuantity { quantity: 0 });
        }
        i = i + 1;
    }
    None
}

/// Rebuild the book from a snapshot atomically: every stated level
/// is validated first, then a fresh book is built aside — one
/// synthetic resting Limit order per level, bids first — and swapped
/// in (keeping the sequence counter) only once everything succeeded.
/// On any failure the book is left exactly as it was.
fn rebuild_from_snapshot(book: &mut OrderBook, msg: &BookSnapshotMessage) -> (r: Result<
    (),
    OrderBookError,
>)
    requires
        old(book).wf(),
        sum_info_qty(msg.bids@) + sum_info_qty(msg.asks@) <= u64::MAX,
    ensures
        final(book).wf(),
        final(book).last_sequence_number == old(book).last_sequence_number,
        !all_levels_valid(*msg) ==> r is Err,
        match r {
            Result::Ok(()) => {
                &&& all_levels_valid(*msg)
                &&& (snapshot_wf(*msg) ==> single_order_levels(final(book).bids_v(), msg.bids@)
                    && single_order_levels(final(book).asks_v(), msg.asks@))
            },
            Result::Err(e) => {
                &&& *final(book) == *old(book)
                &&& match e {
                    OrderBookError::InvalidPrice { price } => price == 0 && has_zero_price_level(
                        *msg,
                    ),
                    OrderBookError::InvalidQuantity { quantity } => quantity == 0
                        && has_zero_qty_level(*msg),
                    OrderBookError::OrderAlreadyExists { .. } => all_levels_valid(*msg),
                    _ => false,
                }
            },
        },
{
    proof {
        lemma_sum_info_nonneg(msg.bids@);
        lemma_sum_info_nonneg(msg.asks@);
    }
    match check_levels(&msg.bids) {
        Some(e) => {
            return Err(e);
        },
        None => {},
    }
    match check_levels(&msg.asks) {
        Some(e) => {
            return Err(e);
        },
        None => {},
    }
    let mut nb = OrderBook::new();
    let mut i: usize = 0;
    while i < msg.bids.len()
        invariant
            *book == *old(book),
            book.wf(),
            nb.wf(),
            sum_info_qty(msg.bids@) + sum_info_qty(msg.asks@) <= u64::MAX,
            sum_info_qty(msg.bids@) >= 0,
            sum_info_qty(msg.asks@) >= 0,
            0 <= i <= msg.bids@.len(),
            forall|k: int|
                0 <= k < msg.bids@.len() ==> (#[trigger] msg.bids@[k]).price > 0
                    && msg.bids@[k].quantity > 0,
            forall|k: int|
                0 <= k < msg.asks@.len() ==> (#[trigger] msg.asks@[k]).price > 0
                    && msg.asks@[k].quantity > 0,
            nb.asks@.len() == 0,
            nb.total_resting() <= sum_info_qty(msg.bids@.take(i as int)),
            snapshot_wf(*msg) ==> single_order_levels(nb.bids_v(), msg.bids@.take(i as int)),
        decreases msg.bids@.len() - i,
    {
        let ghost prevb = nb;
        let li_price = msg.bids[i].price;
        let li_qty = msg.bids[i].quantity;
        proof {
            lemma_sum_info_take_last(msg.bids@, i as int);
            lemma_sum_info_split(msg.bids@, i + 1);
            lemma_sum_info_nonneg(msg.bids@.skip(i + 1));
            lemma_sum_info_nonneg(msg.bids@.take(i as int));
        }
        let order = Order::new(Side::Buy, OrderType::Limit, li_price, li_qty, None);
        let ghost og = order;
        match nb.add_order(order) {
            Ok(_trades) => {},
            Err(e) => {
                return Err(e);
            },
        }
        proof {
            // the ask side is empty, so nothing can execute
            assert(prevb.asks_v() =~= Seq::<LevelV>::empty());
            assert(fills(prevb.asks_v(), true, li_price, li_qty as int) =~= Seq::<FillV>::empty());
            assert(sum_fills(fills(prevb.asks_v(), true, li_price, li_qty as int)) == 0);
            assert(nb.asks_v() == prevb.asks_v());
            assert(nb.asks@.len() == 0);
            assert(nb.bids_v() == insert_order(
                prevb.bids_v(),
                with_remaining(og, li_qty),
                true,
            ));
            lemma_insert_order_total(prevb.bids_v(), with_remaining(og, li_qty), true);
            if snapshot_wf(*msg) {
                let lsv = prevb.bids_v();
                assert forall|k: int|
                    0 <= k < lsv.len() implies better(true, (#[trigger] lsv[k]).price, og.price) by {
                    assert(lsv[k].price == msg.bids@[k].price);
                    assert(msg.bids@[k].price > msg.bids@[i as int].price);
                }
                lemma_insert_at(lsv, with_remaining(og, li_qty), true, lsv.len() as int);
                assert(nb.bids_v() =~= lsv.push(singleton_level(with_remaining(og, li_qty))));
                assert(seq![with_remaining(og, li_qty)][0] == with_remaining(og, li_qty));
                assert(single_order_levels(nb.bids_v(), msg.bids@.take(i + 1)));
            }
        }
        i = i + 1;
    }
    proof {
        assert(msg.bids@.take(msg.bids@.len() as int) =~= msg.bids@);
    }
    let ghost bids_done = nb.bids_v();
    let ghost total_bids = nb.total_resting();
    let mut j: usize = 0;
    while j < msg.asks.len()
        invariant
            *book == *old(book),
            book.wf(),
            nb.wf(),
            sum_info_qty(msg.bids@) + sum_info_qty(msg.asks@) <= u64::MAX,
            sum_info_qty(msg.bids@) >= 0,
            sum_info_qty(msg.asks@) >= 0,
            total_bids <= sum_info_qty(msg.bids@),
            0 <= j <= msg.asks@.len(),
            forall|k: int|
                0 <= k < msg.asks@.len() ==> (#[trigger] msg.asks@[k]).price > 0
                    && msg.asks@[k].quantity > 0,
            forall|k: int|
                0 <= k < msg.bids@.len() ==> (#[trigger] msg.bids@[k]).price > 0
                    && msg.bids@[k].quantity > 0,
            nb.total_resting() <= total_bids + sum_info_qty(msg.asks@.take(j as int)),
            snapshot_wf(*msg) ==> nb.bids_v() == bids_done && single_order_levels(
                bids_done,
                msg.bids@,
            ) && single_order_levels(nb.asks_v(), msg.asks@.take(j as int)),
        decreases msg.asks@.len() - j,
    {
        let ghost prevb = nb;
        let li_price = msg.asks[j].price;
        let li_qty = msg.asks[j].quantity;
        proof {
            lemma_sum_info_take_last(msg.asks@, j as int);
            lemma_sum_info_split(msg.asks@, j + 1);
            lemma_sum_info_nonneg(msg.asks@.skip(j + 1));
            lemma_sum_info_nonneg(msg.asks@.take(j as int));
        }
        let order = Order::new(Side::Sell, OrderType::Limit, li_price, li_qty, None);
        let ghost og = order;
        match nb.add_order(order) {
            Ok(_trades) => {},
            Err(e) => {
                return Err(e);
            },
        }
        proof {
            if snapshot_wf(*msg) {
                // the best bid is below every snapshot ask: no cross
                let bl = prevb.bids_v();
                if bl.len() > 0 {
                    assert(bl[0].price == msg.bids@[0].price);
                    assert(msg.bids@[0].price < msg.asks@[0].price);
                    if j > 0 {
                        assert(msg.asks@[0].price < msg.asks@[j as int].price);
                    }
                    assert(!crosses(false, og.price, bl[0].price));
                    assert(!can_trade(bl, false, og.price, li_qty as int));
                } else {
                    assert(!can_trade(bl, false, og.price, li_qty as int));
                }
                assert(fills(bl, false, og.price, li_qty as int) =~= Seq::<FillV>::empty());
                assert(sum_fills(fills(bl, false, og.price, li_qty as int)) == 0);
                assert(crate::model::consume(bl, false, og.price, li_qty as int) == bl);
                assert(nb.bids_v() == bids_done);
                let lsv = prevb.asks_v();
                assert forall|k: int|
                    0 <= k < lsv.len() implies better(false, (#[trigger] lsv[k]).price, og.price)
                    by {
                    assert(lsv[k].price == msg.asks@[k].price);
                    assert(msg.asks@[k].price < msg.asks@[j as int].price);
                }
                lemma_insert_at(lsv, with_remaining(og, li_qty), false, lsv.len() as int);
                assert(nb.asks_v() =~= lsv.push(singleton_level(with_remaining(og, li_qty))));
                assert(seq![with_remaining(og, li_qty)][0] == with_remaining(og, li_qty));
                assert(single_order_levels(nb.asks_v(), msg.asks@.take(j + 1)));
            }
        }
        j = j + 1;
    }
    proof {
        assert(msg.asks@.take(msg.asks@.len() as int) =~= msg.asks@);
    }
    nb.last_sequence_number = book.last_sequence_number;
    *book = nb;
    Ok(())
}

/// Saturating addition, executable.
fn sat_add_u64(a: u64, b: u64) -> (r: u64)
    ensures
        r == sat_add(a, b),
{
    if a <= u64::MAX - b {
        a + b
    } else {
        u64::MAX
    }
}

/// Microseconds elapsed since `t0`, clamped at zero; clock-dependent,
/// so nothing is promised of the value.
fn elapsed_since(t0: u64) -> u64 {
    let now = external::now_micros();
    if now >= t0 {
        now - t0
    } else {
        0
    }
}

/// The snapshot quantities summed, or nothing if the sum leaves u64.
fn sum_info_quantities(infos: &Vec<LevelInfo>) -> (r: Option<u64>)
    ensures
        match r {
            Some(s) => s == sum_info_qty(infos@),
            None => sum_info_qty(infos@) > u64::MAX,
        },
{
    let mut acc: u64 = 0;
    let mut i: usize = 0;
    while i < infos.len()
        invariant
            0 <= i <= infos@.len(),
            acc == sum_info_qty(infos@.take(i as int)),
        decreases infos@.len() - i,
    {
        proof {
            lemma_sum_info_take_last(infos@, i as int);
            lemma_sum_info_split(infos@, i + 1);
            lemma_sum_info_nonneg(infos@.skip(i + 1));
            lemma_sum_info_nonneg(infos@.take(i as int));
        }
        let q = infos[i].quantity;
        if acc > u64::MAX - q {
            return None;
        }
        acc = acc + q;
        i = i + 1;
    }
    proof {
        assert(infos@.take(infos@.len() as int) =~= infos@);
    }
    Some(acc)
}

impl MarketDataProcessor {
    pub fn new(order_book: OrderBook) -> (r: Self)
        ensures
            r.order_book == order_book,
            r.stats == MarketDataStats::spec_zeroed(),
    {
        MarketDataProcessor { order_book, stats: MarketDataStats::zeroed() }
    }

    pub fn get_stats(&self) -> (r: &MarketDataStats)
        ensures
            *r == self.stats,
    {
        &self.stats
    }

    pub fn reset_stats(&mut self)
        ensures
            final(self).stats == MarketDataStats::spec_zeroed(),
            final(self).order_book == old(self).order_book,
    {
        self.stats.reset();
    }

    /// Apply one sequenced message. A sequence number at or below the
    /// book's last is a gap: the gap counter steps, the book is
    /// untouched and `SequenceGap` is returned. Otherwise the book's
    /// sequence number advances to the message's and the message is
    /// dispatched; a dispatch failure is returned with the processor's
    /// counters untouched.
    pub fn process_market_data(&mut self, message: MarketDataMessage) -> (r: Result<
        bool,
        OrderBookError,
    >)
        requires
            old(self).order_book.wf(),
            old(self).order_book.last_sequence_number < u64::MAX,
            message_fits(old(self).order_book, message),
        ensures
            final(self).order_book.wf(),
            final(self).order_book.last_sequence_number >= old(
                self,
            ).order_book.last_sequence_number,
            msg_seq(message) <= old(self).order_book.last_sequence_number ==> {
                &&& r == Result::<bool, OrderBookError>::Err(
                    OrderBookError::SequenceGap {
                        expected: (old(self).order_book.last_sequence_number + 1) as u64,
                        actual: msg_seq(message),
                    },
                )
                &&& final(self).order_book == old(self).order_book
                &&& final(self).stats == (MarketDataStats {
                    sequence_gaps: bump(old(self).stats.sequence_gaps),
                    ..old(self).stats
                })
            },
            msg_seq(message) > old(self).order_book.last_sequence_number ==> {
                &&& final(self).order_book.last_sequence_number == msg_seq(message)
                &&& match r {
                    Result::Ok(ok) => {
                        &&& ok == true
                        &&& process_ok_outcome(
                            old(self).order_book,
                            final(self).order_book,
                            message,
                        )
                        &&& process_stats_ok(old(self).stats, final(self).stats, message)
                    },
                    Result::Err(e) => {
                        &&& final(self).stats == old(self).stats
                        &&& match message {
                            MarketDataMessage::NewOrder(m) => {
                                &&& final(self).order_book.bids_v() == old(
                                    self,
                                ).order_book.bids_v()
                                &&& final(self).order_book.asks_v() == old(
                                    self,
                                ).order_book.asks_v()
                                &&& final(self).order_book.orders@ == old(self).order_book.orders@
                                &&& match e {
                                    OrderBookError::OrderAlreadyExists { order_id } => old(
                                        self,
                                    ).order_book.book_has_id(order_id),
                                    OrderBookError::InvalidPrice { price } => price == m.price
                                        && m.price == 0 && m.order_type != OrderType::Market,
                                    OrderBookError::InvalidQuantity { quantity } => quantity
                                        == m.quantity && (m.price > 0 || m.order_type
                                        == OrderType::Market) && m.quantity == 0,
                                    _ => false,
                                }
                            },
                            MarketDataMessage::CancelOrder(m) => {
                                &&& final(self).order_book.bids_v() == old(
                                    self,
                                ).order_book.bids_v()
                                &&& final(self).order_book.asks_v() == old(
                                    self,
                                ).order_book.asks_v()
                                &&& final(self).order_book.orders@ == old(self).order_book.orders@
                                &&& e == (OrderBookError::OrderNotFound { order_id: m.order_id })
                                &&& !old(self).order_book.book_has_id(m.order_id)
                            },
                            MarketDataMessage::ModifyOrder(m) => match e {
                                OrderBookError::OrderNotFound { order_id } => {
                                    &&& order_id == m.order_id
                                    &&& !old(self).order_book.book_has_id(m.order_id)
                                    &&& final(self).order_book.bids_v() == old(
                                        self,
                                    ).order_book.bids_v()
                                    &&& final(self).order_book.asks_v() == old(
                                        self,
                                    ).order_book.asks_v()
                                },
                                OrderBookError::InvalidPrice { price } => {
                                    &&& old(self).order_book.book_has_id(m.order_id)
                                    &&& price == legacy_price(m.new_price)
                                    &&& price == 0
                                    &&& OrderBook::cancelled_state(
                                        old(self).order_book,
                                        final(self).order_book,
                                        m.order_id,
                                    )
                                },
                                OrderBookError::InvalidQuantity { quantity } => {
                                    &&& old(self).order_book.book_has_id(m.order_id)
                                    &&& quantity == replace_qty(
                                        old(self).order_book.find_resting(m.order_id),
                                        m.new_quantity,
                                    )
                                    &&& quantity == 0
                                    &&& legacy_price(m.new_price) > 0
                                    &&& OrderBook::cancelled_state(
                                        old(self).order_book,
                                        final(self).order_book,
                                        m.order_id,
                                    )
                                },
                                OrderBookError::OrderAlreadyExists { .. } => {
                                    &&& old(self).order_book.book_has_id(m.order_id)
                                    &&& OrderBook::cancelled_state(
                                        old(self).order_book,
                                        final(self).order_book,
                                        m.order_id,
                                    )
                                },
                                _ => false,
                            },
                            MarketDataMessage::Trade(_) => false,
                            MarketDataMessage::BookSnapshot(m) => {
                                &&& final(self).order_book.bids_v() == old(
                                    self,
                                ).order_book.bids_v()
                                &&& final(self).order_book.asks_v() == old(
                                    self,
                                ).order_book.asks_v()
                                &&& final(self).order_book.orders@ == old(self).order_book.orders@
                                &&& match e {
                                    OrderBookError::InvalidPrice { price } => price == 0
                                        && has_zero_price_level(m),
                                    OrderBookError::InvalidQuantity { quantity } => quantity == 0
                                        && has_zero_qty_level(m),
                                    OrderBookError::OrderAlreadyExists { .. } => true,
                                    _ => false,
                                }
                            },
                        }
                    },
                }
            },
    {
        let t0 = external::now_micros();
        let seq = match &message {
            MarketDataMessage::NewOrder(m) => m.sequence_number,
            MarketDataMessage::CancelOrder(m) => m.sequence_number,
            MarketDataMessage::ModifyOrder(m) => m.sequence_number,
            MarketDataMessage::Trade(m) => m.sequence_number,
            MarketDataMessage::BookSnapshot(m) => m.sequence_number,
        };
        if seq <= self.order_book.last_sequence_number {
            let expected = self.order_book.last_sequence_number + 1;
            self.stats.sequence_gaps = sat_add_u64(self.stats.sequence_gaps, 1);
            proof {
                assert(bump(old(self).stats.sequence_gaps) == sat_add(
                    old(self).stats.sequence_gaps,
                    1,
                ));
            }
            return Err(OrderBookError::SequenceGap { expected, actual: seq });
        }
        self.order_book.last_sequence_number = seq;
        let ghost prevb = self.order_book;
        match message {
            MarketDataMessage::NewOrder(m) => {
                let order = Order::new(m.side, m.order_type, m.price, m.quantity, None);
                let ghost og = order;
                match self.order_book.add_order(order) {
                    Ok(t) => {
                        proof {
                            let gtr = t@;
                            assert(OrderBook::add_outcome(
                                old(self).order_book,
                                self.order_book,
                                msg_order(m, og.id, og.timestamp),
                                gtr,
                            ));
                        }
                    },
                    Err(e) => {
                        return Err(e);
                    },
                }
                self.stats.new_orders = sat_add_u64(self.stats.new_orders, 1);
            },
            MarketDataMessage::CancelOrder(m) => {
                match self.order_book.cancel_order(m.order_id) {
                    Ok(()) => {},
                    Err(e) => {
                        return Err(e);
                    },
                }
                self.stats.cancellations = sat_add_u64(self.stats.cancellations, 1);
            },
            MarketDataMessage::ModifyOrder(m) => {
                let np = match m.new_price {
                    Some(p) => p,
                    None => 0,
                };
                match self.order_book.modify_order(m.order_id, Some(np), m.new_quantity) {
                    Ok(t) => {
                        proof {
                            let gtr = t@;
                            assert(OrderBook::modify_outcome(
                                old(self).order_book,
                                self.order_book,
                                m.order_id,
                                Option::Some(legacy_price(m.new_price)),
                                m.new_quantity,
                                gtr,
                            ));
                        }
                    },
                    Err(e) => {
                        return Err(e);
                    },
                }
                self.stats.modifications = sat_add_u64(self.stats.modifications, 1);
            },
            MarketDataMessage::Trade(_m) => {
                self.stats.trades = sat_add_u64(self.stats.trades, 1);
            },
            MarketDataMessage::BookSnapshot(m) => {
                match rebuild_from_snapshot(&mut self.order_book, &m) {
                    Ok(()) => {},
                    Err(e) => {
                        return Err(e);
                    },
                }
                self.stats.snapshots = sat_add_u64(self.stats.snapshots, 1);
            },
        }
        let ghost s_mid = self.stats;
        let e = elapsed_since(t0);
        self.stats.total_processing_time = sat_add_u64(self.stats.total_processing_time, e);
        if e > self.stats.max_latency {
            self.stats.max_latency = e;
        }
        if self.stats.min_latency == 0 || e < self.stats.min_latency {
            self.stats.min_latency = e;
        }
        self.stats.messages_processed = sat_add_u64(self.stats.messages_processed, 1);
        proof {
            assert(s_mid == variant_counter_bumped(old(self).stats, message));
            assert(self.stats == (MarketDataStats {
                messages_processed: bump(old(self).stats.messages_processed),
                ..variant_counter_bumped(old(self).stats, message).with_latency(e)
            }));
        }
        Ok(true)
    }

    /// Apply a batch in input order, continuing past failures: a
    /// message the book has no room for, a stale sequence number, or
    /// any dispatch error counts into `errors` and the batch goes on.
    /// Returns how many messages were applied: the result relates the
    /// final state to the initial one by one `step_outcome` per
    /// message, and the error counter advances by exactly the number
    /// of failures.
    pub fn process_market_data_batch(&mut self, messages: Vec<MarketDataMessage>) -> (r: Result<
        usize,
        OrderBookError,
    >)
        requires
            old(self).order_book.wf(),
        ensures
            final(self).order_book.wf(),
            final(self).order_book.last_sequence_number >= old(
                self,
            ).order_book.last_sequence_number,
            match r {
                Result::Ok(n) => {
                    &&& n <= messages@.len()
                    &&& batch_steps(*old(self), *final(self), messages@, n as int)
                    &&& final(self).stats.errors == sat_cap(
                        old(self).stats.errors,
                        messages@.len() - n,
                    )
                },
                Result::Err(_) => false,
            },
    {
        let ghost p0 = *old(self);
        let ghost err0 = old(self).stats.errors;
        let mut msgs = messages;
        let n0 = msgs.len();
        let mut processed: usize = 0;
        let ghost total = msgs@.len();
        proof {
            assert(total == n0);
            assert(messages@.skip(0) =~= msgs@);
            assert(messages@.take(0) =~= Seq::<MarketDataMessage>::empty());
        }
        while msgs.len() > 0
            invariant
                self.order_book.wf(),
                self.order_book.last_sequence_number >= p0.order_book.last_sequence_number,
                p0 == *old(self),
                err0 == p0.stats.errors,
                processed + msgs@.len() <= total,
                total == messages@.len(),
                total <= usize::MAX,
                messages@.skip(total - msgs@.len()) == msgs@,
                batch_steps(p0, *self, messages@.take(total - msgs@.len()), processed as int),
                self.stats.errors == sat_cap(err0, (total - msgs@.len()) - processed),
            decreases msgs@.len(),
        {
            let ghost done = total - msgs@.len();
            let ghost pa = *self;
            let m = msgs.remove(0);
            let ghost gm = m;
            proof {
                assert(messages@.skip(done)[0] == messages@[done]);
                assert(gm == messages@[done]);
                assert(messages@.skip(done + 1) =~= msgs@);
            }
            let fits = match &m {
                MarketDataMessage::NewOrder(mm) => {
                    let t = self.order_book.total_resting_quantity();
                    t <= u64::MAX - mm.quantity
                },
                MarketDataMessage::ModifyOrder(mm) => match mm.new_quantity {
                    Some(q) => {
                        let t = self.order_book.total_resting_quantity();
                        t <= u64::MAX - q
                    },
                    None => true,
                },
                MarketDataMessage::BookSnapshot(mm) => {
                    let sb = sum_info_quantities(&mm.bids);
                    let sa = sum_info_quantities(&mm.asks);
                    match (sb, sa) {
                        (Some(b), Some(a)) => b <= u64::MAX - a,
                        _ => false,
                    }
                },
                _ => true,
            };
            proof {
                if fits {
                    lemma_remaining_le_total(self.order_book, m);
                }
            }
            let mut applied = false;
            if !fits || self.order_book.last_sequence_number == u64::MAX {
                self.stats.errors = sat_add_u64(self.stats.errors, 1);
            } else {
                match self.process_market_data(m) {
                    Ok(_) => {
                        processed = processed + 1;
                        applied = true;
                    },
                    Err(_e) => {
                        self.stats.errors = sat_add_u64(self.stats.errors, 1);
                    },
                }
            }
            proof {
                if applied {
                    let e = choose|e: u64|
                        self.stats == (MarketDataStats {
                            messages_processed: bump(pa.stats.messages_processed),
                            ..(#[trigger] variant_counter_bumped(pa.stats, gm).with_latency(e))
                        });
                    assert(self.stats.errors == pa.stats.errors);
                }
                assert(step_outcome(pa, *self, gm, applied));
                assert(messages@.take(done + 1).drop_last() =~= messages@.take(done));
                assert(messages@.take(done + 1).last() == messages@[done]);
                assert(step_outcome(pa, *self, messages@.take(done + 1).last(), applied));
                assert(batch_steps(p0, *self, messages@.take(done + 1), processed as int));
                assert(self.stats.errors == sat_cap(err0, (done + 1) - processed));
            }
        }
        proof {
            assert(messages@.take(total as int) =~= messages@);
        }
        Ok(processed)
    }
}

/// The executable room checks of the batch path imply the exact room
/// a message needs.
proof fn lemma_remaining_le_total(book: OrderBook, m: MarketDataMessage)
    requires
        book.wf(),
    ensures
        match m {
            MarketDataMessage::ModifyOrder(mm) => book.book_has_id(mm.order_id)
                ==> 0 <= book.find_resting(mm.order_id).remaining_quantity <= book.total_resting(),
            _ => true,
        },
{
    if let MarketDataMessage::ModifyOrder(mm) = m {
        if book.book_has_id(mm.order_id) {
            let is_bid = ladder_has(book.bids_v(), mm.order_id);
            if is_bid {
                lemma_cancel_ladder_props(book.bids_v(), mm.order_id, true);
                lemma_ladder_total_nonneg(crate::model::cancel_ladder(
                    book.bids_v(),
                    mm.order_id,
                ));
                lemma_ladder_total_nonneg(book.asks_v());
            } else {
                lemma_cancel_ladder_props(book.asks_v(), mm.order_id, false);
                lemma_ladder_total_nonneg(crate::model::cancel_ladder(
                    book.asks_v(),
                    mm.order_id,
                ));
                lemma_ladder_total_nonneg(book.bids_v());
            }
        }
    }
}

} // verus!
