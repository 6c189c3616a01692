//! Core data types: orders, trades, level summaries, market-data
//! messages, statistics and the error taxonomy.
//!
//! Identifiers are 128-bit integers; timestamps are microseconds since
//! the Unix epoch; prices and quantities are fixed-point integers at
//! 1,000,000 units per whole.

use vstd::prelude::*;
use crate::external;

verus! {

pub type OrderId = u128;
pub type Price = u64;
pub type Quantity = u64;
pub type Timestamp = u64;

#[derive(Debug, Clone, Copy, PartialEq, Eq, Hash, Structural)]
pub enum Side {
    Buy,
    Sell,
}

#[derive(Debug, Clone, Copy, PartialEq, Eq, Hash, Structural)]
pub enum OrderType {
    Limit,
    Market,
    ImmediateOrCancel,
    FillOrKill,
    GoodTillCancel,
    GoodForDay,
}

#[derive(Debug, Clone)]
pub struct Order {
    pub id: OrderId,
    pub side: Side,
    pub order_type: OrderType,
    pub price: Price,
    pub quantity: Quantity,
    pub remaining_quantity: Quantity,
    pub timestamp: Timestamp,
    pub user_id: Option<String>,
}

impl Order {
    /// Builds a new order with a fresh random identifier and the
    /// current timestamp; `remaining_quantity` starts at `quantity`.
    pub fn new(
        side: Side,
        order_type: OrderType,
        price: Price,
        quantity: Quantity,
        user_id: Option<String>,
    ) -> (r: Self)
        ensures
            r.side == side,
            r.order_type == order_type,
            r.price == price,
            r.quantity == quantity,
            r.remaining_quantity == quantity,
            r.user_id == user_id,
    {
        Self {
            id: external::fresh_order_id(),
            side,
            order_type,
            price,
            quantity,
            remaining_quantity: quantity,
            timestamp: external::now_micros(),
            user_id,
        }
    }

    pub fn is_filled(&self) -> (r: bool)
        ensures
            r == (self.remaining_quantity == 0),
    {
        self.remaining_quantity == 0
    }

    pub fn is_active(&self) -> (r: bool)
        ensures
            r == (self.remaining_quantity != 0 && self.order_type != OrderType::FillOrKill),
    {
        !self.is_filled() && self.order_type != OrderType::FillOrKill
    }
}

#[derive(Debug, Clone)]
pub struct Trade {
    pub id: OrderId,
    pub buy_order_id: OrderId,
    pub sell_order_id: OrderId,
    pub price: Price,
    pub quantity: Quantity,
    pub timestamp: Timestamp,
}

impl Trade {
    /// Builds a trade record with a fresh random identifier and the
    /// current timestamp.
    pub fn new(
        buy_order_id: OrderId,
        sell_order_id: OrderId,
        price: Price,
        quantity: Quantity,
    ) -> (r: Self)
        ensures
            r.buy_order_id == buy_order_id,
            r.sell_order_id == sell_order_id,
            r.price == price,
            r.quantity == quantity,
    {
        Self {
            id: external::fresh_order_id(),
            buy_order_id,
            sell_order_id,
            price,
            quantity,
            timestamp: external::now_micros(),
        }
    }
}

/// One ladder level summarised: its price, its aggregate resting
/// quantity and the number of resting orders.
#[derive(Debug, Clone, Copy, PartialEq, Eq, Structural)]
pub struct LevelInfo {
    pub price: Price,
    pub quantity: Quantity,
    pub order_count: usize,
}

#[derive(Debug, Clone)]
pub struct OrderBookSnapshot {
    pub bids: Vec<LevelInfo>,
    pub asks: Vec<LevelInfo>,
    pub timestamp: Timestamp,
    pub sequence_number: u64,
}

#[derive(Debug, Clone, Copy, PartialEq, Eq, Hash, Structural)]
pub enum MessageType {
    NewOrder,
    CancelOrder,
    ModifyOrder,
    Trade,
    BookSnapshot,
}

#[derive(Debug, Clone)]
pub struct NewOrderMessage {
    pub message_type: MessageType,
    pub order_id: OrderId,
    pub side: Side,
    pub order_type: OrderType,
    pub price: Price,
    pub quantity: Quantity,
    pub timestamp: Timestamp,
    pub sequence_number: u64,
}

#[derive(Debug, Clone)]
pub struct CancelOrderMessage {
    pub message_type: MessageType,
    pub order_id: OrderId,
    pub timestamp: Timestamp,
    pub sequence_number: u64,
}

#[derive(Debug, Clone)]
pub struct ModifyOrderMessage {
    pub message_type: MessageType,
    pub order_id: OrderId,
    pub new_price: Option<Price>,
    pub new_quantity: Option<Quantity>,
    pub timestamp: Timestamp,
    pub sequence_number: u64,
}

#[derive(Debug, Clone)]
pub struct TradeMessage {
    pub message_type: MessageType,
    pub buy_order_id: OrderId,
    pub sell_order_id: OrderId,
    pub price: Price,
    pub quantity: Quantity,
    pub timestamp: Timestamp,
    pub sequence_number: u64,
}

#[derive(Debug, Clone)]
pub struct BookSnapshotMessage {
    pub message_type: MessageType,
    pub bids: Vec<LevelInfo>,
    pub asks: Vec<LevelInfo>,
    pub timestamp: Timestamp,
    pub sequence_number: u64,
}

#[derive(Debug, Clone)]
pub enum MarketDataMessage {
    NewOrder(NewOrderMessage),
    CancelOrder(CancelOrderMessage),
    ModifyOrder(ModifyOrderMessage),
    Trade(TradeMessage),
    BookSnapshot(BookSnapshotMessage),
}

/// Ingest statistics. Durations are in microseconds; `min_latency`
/// starts at zero as a sentinel and the first measurement establishes
/// it.
#[derive(Debug, Clone, Copy, PartialEq, Eq, Structural)]
pub struct MarketDataStats {
    pub messages_processed: u64,
    pub new_orders: u64,
    pub cancellations: u64,
    pub modifications: u64,
    pub trades: u64,
    pub snapshots: u64,
    pub errors: u64,
    pub sequence_gaps: u64,
    pub total_processing_time: u64,
    pub max_latency: u64,
    pub min_latency: u64,
}

/// Saturating addition on counters and durations.
pub open spec fn sat_add(a: u64, b: u64) -> u64 {
    if a + b > u64::MAX {
        u64::MAX
    } else {
        (a + b) as u64
    }
}

/// A counter stepped by one, saturating.
pub open spec fn bump(a: u64) -> u64 {
    sat_add(a, 1)
}

/// A counter advanced by `k` saturating single steps.
pub open spec fn sat_cap(a: u64, k: int) -> u64 {
    if a + k > u64::MAX {
        u64::MAX
    } else {
        (a + k) as u64
    }
}

impl MarketDataStats {
    /// The statistics after folding one observed latency into the
    /// cumulative, maximum and sentinel-initialised minimum fields.
    pub open spec fn with_latency(self, e: u64) -> MarketDataStats {
        MarketDataStats {
            total_processing_time: sat_add(self.total_processing_time, e),
            max_latency: if e > self.max_latency {
                e
            } else {
                self.max_latency
            },
            min_latency: if self.min_latency == 0 || e < self.min_latency {
                e
            } else {
                self.min_latency
            },
            ..self
        }
    }

    /// The statistics after one cancellation's bookkeeping.
    pub open spec fn after_cancel(self, e: u64) -> MarketDataStats {
        MarketDataStats {
            cancellations: bump(self.cancellations),
            total_processing_time: sat_add(self.total_processing_time, e),
            ..self
        }
    }

    /// The statistics after one order submission's bookkeeping.
    pub open spec fn after_add(self, e: u64) -> MarketDataStats {
        MarketDataStats { new_orders: bump(self.new_orders), ..self.with_latency(e) }
    }

    /// The statistics after a modification's own bookkeeping (on top
    /// of the nested cancellation's and submission's).
    pub open spec fn after_modify_step(self, e: u64) -> MarketDataStats {
        MarketDataStats {
            modifications: bump(self.modifications),
            total_processing_time: sat_add(self.total_processing_time, e),
            ..self
        }
    }

    pub open spec fn spec_zeroed() -> MarketDataStats {
        MarketDataStats {
            messages_processed: 0,
            new_orders: 0,
            cancellations: 0,
            modifications: 0,
            trades: 0,
            snapshots: 0,
            errors: 0,
            sequence_gaps: 0,
            total_processing_time: 0,
            max_latency: 0,
            min_latency: 0,
        }
    }

    pub fn zeroed() -> (r: Self)
        ensures
            r == Self::spec_zeroed(),
    {
        MarketDataStats {
            messages_processed: 0,
            new_orders: 0,
            cancellations: 0,
            modifications: 0,
            trades: 0,
            snapshots: 0,
            errors: 0,
            sequence_gaps: 0,
            total_processing_time: 0,
            max_latency: 0,
            min_latency: 0,
        }
    }

    pub fn reset(&mut self)
        ensures
            *final(self) == Self::spec_zeroed(),
    {
        *self = Self::zeroed();
    }
}

impl Default for MarketDataStats {
    fn default() -> (r: Self)
        ensures
            r == Self::spec_zeroed(),
    {
        Self::zeroed()
    }
}

/// A modification folds three bookkeeping steps into the statistics:
/// the nested cancellation's, the resubmission's, and its own.
pub open spec fn modify_stats_chain(s0: MarketDataStats, s1: MarketDataStats) -> bool {
    exists|e1: u64, e2: u64, e3: u64|
        s1 == #[trigger] s0.after_cancel(e1).after_add(e2).after_modify_step(e3)
}

#[derive(Debug, Clone, PartialEq)]
pub enum OrderBookError {
    OrderNotFound { order_id: OrderId },
    InvalidPrice { price: Price },
    InvalidQuantity { quantity: Quantity },
    OrderAlreadyExists { order_id: OrderId },
    SequenceGap { expected: u64, actual: u64 },
    MarketDataError { message: String },
}

} // verus!
