use orderbook_rust::market_data::MarketDataProcessor;
use orderbook_rust::matching::MatchingEngine;
use orderbook_rust::orderbook::OrderBook;
use orderbook_rust::types::{
    BookSnapshotMessage, CancelOrderMessage, LevelInfo, MarketDataMessage, MessageType,
    NewOrderMessage, Order, OrderBookError, OrderType, Side, TradeMessage,
};

#[test]
fn zero_quantity_is_rejected() {
    let mut book = OrderBook::new();
    let order = Order::new(Side::Buy, OrderType::Limit, 100_000, 0, None);
    let quantity = order.quantity;
    match book.add_order(order) {
        Err(OrderBookError::InvalidQuantity { quantity: q }) => assert_eq!(q, quantity),
        other => panic!("expected InvalidQuantity, got {:?}", other),
    }
    assert_eq!(book.size(), 0);
}

#[test]
fn zero_price_limit_is_rejected() {
    let mut book = OrderBook::new();
    let order = Order::new(Side::Sell, OrderType::Limit, 0, 500, None);
    match book.add_order(order) {
        Err(OrderBookError::InvalidPrice { price }) => assert_eq!(price, 0),
        other => panic!("expected InvalidPrice, got {:?}", other),
    }
}

#[test]
fn duplicate_identifier_is_rejected() {
    let mut book = OrderBook::new();
    let order = Order::new(Side::Buy, OrderType::Limit, 100_000, 1000, None);
    let dup = order.clone();
    let id = order.id;
    book.add_order(order).unwrap();
    match book.add_order(dup) {
        Err(OrderBookError::OrderAlreadyExists { order_id }) => assert_eq!(order_id, id),
        other => panic!("expected OrderAlreadyExists, got {:?}", other),
    }
}

#[test]
fn cancel_unknown_identifier_fails() {
    let mut book = OrderBook::new();
    match book.cancel_order(7) {
        Err(OrderBookError::OrderNotFound { order_id }) => assert_eq!(order_id, 7),
        other => panic!("expected OrderNotFound, got {:?}", other),
    }
}

#[test]
fn cancelling_last_order_deletes_level() {
    let mut book = OrderBook::new();
    let a = Order::new(Side::Buy, OrderType::Limit, 100_000, 1000, None);
    let b = Order::new(Side::Buy, OrderType::Limit, 99_000, 400, None);
    let a_id = a.id;
    book.add_order(a).unwrap();
    book.add_order(b).unwrap();
    assert_eq!(book.get_order_book_snapshot(5).bids.len(), 2);

    book.cancel_order(a_id).unwrap();
    let snapshot = book.get_order_book_snapshot(5);
    assert_eq!(snapshot.bids.len(), 1);
    assert_eq!(snapshot.bids[0].price, 99_000);
    assert_eq!(book.get_best_bid(), Some(99_000));
}

#[test]
fn market_order_against_empty_book_does_not_rest() {
    let mut book = OrderBook::new();
    let market_buy = Order::new(Side::Buy, OrderType::Market, 0, 300, None);
    let trades = book.add_order(market_buy).unwrap();
    assert_eq!(trades.len(), 0);
    let snapshot = book.get_order_book_snapshot(5);
    assert_eq!(snapshot.bids.len(), 0);
    assert_eq!(snapshot.asks.len(), 0);
    assert_eq!(book.size(), 0);
}

#[test]
fn fill_or_kill_exact_liquidity_fills_exactly() {
    let mut book = OrderBook::new();
    let sell = Order::new(Side::Sell, OrderType::Limit, 100_000, 500, None);
    book.add_order(sell).unwrap();

    let fok = Order::new(Side::Buy, OrderType::FillOrKill, 100_000, 500, None);
    let trades = book.add_order(fok).unwrap();
    assert_eq!(trades.len(), 1);
    assert_eq!(trades[0].quantity, 500);
    assert_eq!(trades[0].price, 100_000);
    let snapshot = book.get_order_book_snapshot(5);
    assert_eq!(snapshot.asks.len(), 0);
    assert_eq!(snapshot.bids.len(), 0);
}

#[test]
fn add_then_cancel_restores_book() {
    let mut book = OrderBook::new();
    let resting = Order::new(Side::Sell, OrderType::Limit, 105_000, 700, None);
    book.add_order(resting).unwrap();
    let best_bid_before = book.get_best_bid();
    let best_ask_before = book.get_best_ask();
    let size_before = book.size();

    let incoming = Order::new(Side::Buy, OrderType::Limit, 100_000, 1000, None);
    let incoming_id = incoming.id;
    let trades = book.add_order(incoming).unwrap();
    assert_eq!(trades.len(), 0); // no crossing at these prices
    book.cancel_order(incoming_id).unwrap();

    assert_eq!(book.get_best_bid(), best_bid_before);
    assert_eq!(book.get_best_ask(), best_ask_before);
    assert_eq!(book.size(), size_before);
    let snapshot = book.get_order_book_snapshot(5);
    assert_eq!(snapshot.bids.len(), 0);
    assert_eq!(snapshot.asks.len(), 1);
    assert_eq!(snapshot.asks[0].quantity, 700);
}

#[test]
fn trades_walk_the_ladder_most_aggressive_first() {
    let mut book = OrderBook::new();
    let s1 = Order::new(Side::Sell, OrderType::Limit, 101_000, 300, None);
    let s2 = Order::new(Side::Sell, OrderType::Limit, 102_000, 300, None);
    book.add_order(s2).unwrap();
    book.add_order(s1).unwrap();

    let buy = Order::new(Side::Buy, OrderType::Limit, 102_000, 500, None);
    let trades = book.add_order(buy).unwrap();
    assert_eq!(trades.len(), 2);
    assert_eq!(trades[0].price, 101_000);
    assert_eq!(trades[0].quantity, 300);
    assert_eq!(trades[1].price, 102_000);
    assert_eq!(trades[1].quantity, 200);
    let snapshot = book.get_order_book_snapshot(5);
    assert_eq!(snapshot.asks.len(), 1);
    assert_eq!(snapshot.asks[0].price, 102_000);
    assert_eq!(snapshot.asks[0].quantity, 100);
}

#[test]
fn modify_forfeits_time_priority() {
    let mut book = OrderBook::new();
    let a = Order::new(Side::Buy, OrderType::Limit, 100_000, 1000, None);
    let b = Order::new(Side::Buy, OrderType::Limit, 100_000, 1000, None);
    let a_id = a.id;
    let b_id = b.id;
    book.add_order(a).unwrap();
    book.add_order(b).unwrap();

    // modifying A re-inserts it behind B at the same level
    book.modify_order(a_id, Some(100_000), Some(1000)).unwrap();

    let sell = Order::new(Side::Sell, OrderType::Limit, 100_000, 500, None);
    let trades = book.add_order(sell).unwrap();
    assert_eq!(trades.len(), 1);
    assert_eq!(trades[0].buy_order_id, b_id); // B now has priority
}

#[test]
fn sequence_gap_is_detected() {
    let mut processor = MarketDataProcessor::new(OrderBook::new());
    let msg = |seq: u64| {
        MarketDataMessage::Trade(TradeMessage {
            message_type: MessageType::Trade,
            buy_order_id: 1,
            sell_order_id: 2,
            price: 100_000,
            quantity: 10,
            timestamp: 0,
            sequence_number: seq,
        })
    };
    assert!(processor.process_market_data(msg(5)).is_ok());
    match processor.process_market_data(msg(5)) {
        Err(OrderBookError::SequenceGap { expected, actual }) => {
            assert_eq!(expected, 6);
            assert_eq!(actual, 5);
        },
        other => panic!("expected SequenceGap, got {:?}", other),
    }
    let stats = processor.get_stats();
    assert_eq!(stats.sequence_gaps, 1);
    assert_eq!(stats.trades, 1);
    assert_eq!(processor.order_book.get_last_sequence_number(), 5);
}

#[test]
fn cancel_message_removes_order() {
    let mut processor = MarketDataProcessor::new(OrderBook::new());
    let order = Order::new(Side::Buy, OrderType::Limit, 100_000, 1000, None);
    let order_id = order.id;
    processor.order_book.add_order(order).unwrap();

    let message = MarketDataMessage::CancelOrder(CancelOrderMessage {
        message_type: MessageType::CancelOrder,
        order_id,
        timestamp: 0,
        sequence_number: 1,
    });
    assert!(processor.process_market_data(message).is_ok());
    assert_eq!(processor.order_book.size(), 0);
    assert_eq!(processor.get_stats().cancellations, 1);
}

#[test]
fn snapshot_rebuild_is_idempotent() {
    let snapshot_message = || {
        MarketDataMessage::BookSnapshot(BookSnapshotMessage {
            message_type: MessageType::BookSnapshot,
            bids: vec![
                LevelInfo { price: 100_000, quantity: 1000, order_count: 1 },
                LevelInfo { price: 99_000, quantity: 2000, order_count: 1 },
            ],
            asks: vec![
                LevelInfo { price: 101_000, quantity: 1500, order_count: 1 },
                LevelInfo { price: 103_000, quantity: 500, order_count: 1 },
            ],
            timestamp: 0,
            sequence_number: 0,
        })
    };
    let mut processor = MarketDataProcessor::new(OrderBook::new());

    let apply = |p: &mut MarketDataProcessor, seq: u64| {
        let mut m = snapshot_message();
        if let MarketDataMessage::BookSnapshot(ref mut s) = m {
            s.sequence_number = seq;
        }
        p.process_market_data(m).unwrap();
        p.order_book.get_order_book_snapshot(10)
    };

    let first = apply(&mut processor, 1);
    let second = apply(&mut processor, 2);
    assert_eq!(first.bids, second.bids);
    assert_eq!(first.asks, second.asks);
    assert_eq!(first.bids.len(), 2);
    assert_eq!(first.bids[0].price, 100_000);
    assert_eq!(first.bids[0].quantity, 1000);
    assert_eq!(first.bids[0].order_count, 1);
    assert_eq!(first.asks[0].price, 101_000);
    assert_eq!(processor.order_book.get_best_bid(), Some(100_000));
    assert_eq!(processor.order_book.get_best_ask(), Some(101_000));
}

#[test]
fn batch_continues_past_errors() {
    let mut processor = MarketDataProcessor::new(OrderBook::new());
    let new_order = |seq: u64, qty: u64| {
        MarketDataMessage::NewOrder(NewOrderMessage {
            message_type: MessageType::NewOrder,
            order_id: seq as u128,
            side: Side::Buy,
            order_type: OrderType::Limit,
            price: 100_000,
            quantity: qty,
            timestamp: 0,
            sequence_number: seq,
        })
    };
    let messages = vec![
        new_order(1, 1000),
        new_order(1, 1000), // stale sequence number
        new_order(2, 0),    // invalid quantity
        new_order(3, 500),
    ];
    let processed = processor.process_market_data_batch(messages).unwrap();
    assert_eq!(processed, 2);
    assert_eq!(processor.get_stats().errors, 2);
    let snapshot = processor.order_book.get_order_book_snapshot(5);
    assert_eq!(snapshot.bids[0].quantity, 1500);
}

#[test]
fn engine_routes_by_symbol() {
    let mut engine = MatchingEngine::new();
    let o1 = Order::new(Side::Buy, OrderType::Limit, 100_000, 1000, None);
    let o2 = Order::new(Side::Sell, OrderType::Limit, 200_000, 700, None);
    let o1_id = o1.id;
    engine.add_order("AAA", o1).unwrap();
    engine.add_order("BBB", o2).unwrap();

    assert_eq!(
        engine.get_best_bid_ask("AAA"),
        Some((Some(100_000), None))
    );
    assert_eq!(
        engine.get_best_bid_ask("BBB"),
        Some((None, Some(200_000)))
    );
    assert_eq!(engine.get_best_bid_ask("CCC"), None);

    let symbols = engine.get_symbols();
    assert_eq!(symbols.len(), 2);
    assert!(symbols.contains(&"AAA".to_string()));
    assert!(symbols.contains(&"BBB".to_string()));

    engine.cancel_order("AAA", o1_id).unwrap();
    assert_eq!(engine.get_best_bid_ask("AAA"), Some((None, None)));
    match engine.cancel_order("CCC", 9) {
        Err(OrderBookError::OrderNotFound { order_id }) => assert_eq!(order_id, 9),
        other => panic!("expected OrderNotFound, got {:?}", other),
    }
}

#[test]
fn order_flags_reflect_state() {
    let order = Order::new(Side::Buy, OrderType::Limit, 100_000, 10, None);
    assert!(!order.is_filled());
    assert!(order.is_active());

    let fok = Order::new(Side::Buy, OrderType::FillOrKill, 100_000, 10, None);
    assert!(!fok.is_active());

    let mut filled = Order::new(Side::Sell, OrderType::Limit, 100_000, 10, None);
    filled.remaining_quantity = 0;
    assert!(filled.is_filled());
    assert!(!filled.is_active());
}

#[test]
fn stats_reset_zeroes_counters() {
    let mut book = OrderBook::new();
    let order = Order::new(Side::Buy, OrderType::Limit, 100_000, 10, None);
    book.add_order(order).unwrap();
    assert_eq!(book.get_market_data_stats().new_orders, 1);
    book.reset_market_data_stats();
    assert_eq!(book.get_market_data_stats().new_orders, 0);
    assert_eq!(book.get_market_data_stats().total_processing_time, 0);
}

#[test]
fn clear_all_orders_empties_book_and_keeps_sequence() {
    let mut processor = MarketDataProcessor::new(OrderBook::new());
    let message = MarketDataMessage::Trade(TradeMessage {
        message_type: MessageType::Trade,
        buy_order_id: 1,
        sell_order_id: 2,
        price: 1,
        quantity: 1,
        timestamp: 0,
        sequence_number: 9,
    });
    processor.process_market_data(message).unwrap();
    let order = Order::new(Side::Buy, OrderType::Limit, 100_000, 10, None);
    processor.order_book.add_order(order).unwrap();

    processor.order_book.clear_all_orders();
    assert_eq!(processor.order_book.size(), 0);
    assert_eq!(processor.order_book.get_last_sequence_number(), 9);
}

#[test]
fn modify_keeps_old_price_when_absent() {
    let mut book = OrderBook::new();
    let order = Order::new(Side::Buy, OrderType::Limit, 100_000, 1000, None);
    let order_id = order.id;
    book.add_order(order).unwrap();

    let trades = book.modify_order(order_id, None, Some(250)).unwrap();
    assert_eq!(trades.len(), 0);
    let snapshot = book.get_order_book_snapshot(5);
    assert_eq!(snapshot.bids.len(), 1);
    assert_eq!(snapshot.bids[0].price, 100_000); // price carried over
    assert_eq!(snapshot.bids[0].quantity, 250);

    match book.modify_order(424242, None, None) {
        Err(OrderBookError::OrderNotFound { order_id: oid }) => assert_eq!(oid, 424242),
        other => panic!("expected OrderNotFound, got {:?}", other),
    }
}

#[test]
fn modify_can_cross_and_trade() {
    let mut book = OrderBook::new();
    let sell = Order::new(Side::Sell, OrderType::Limit, 101_000, 400, None);
    let buy = Order::new(Side::Buy, OrderType::Limit, 100_000, 400, None);
    let buy_id = buy.id;
    book.add_order(sell).unwrap();
    book.add_order(buy).unwrap();

    // raising the bid to the ask's price crosses on resubmission
    let trades = book.modify_order(buy_id, Some(101_000), None).unwrap();
    assert_eq!(trades.len(), 1);
    assert_eq!(trades[0].price, 101_000); // maker's price
    assert_eq!(trades[0].quantity, 400);
    let snapshot = book.get_order_book_snapshot(5);
    assert_eq!(snapshot.bids.len(), 0);
    assert_eq!(snapshot.asks.len(), 0);
}
