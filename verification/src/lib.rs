//! A price-time-priority limit order book for a single instrument:
//! two sorted price ladders with FIFO levels, a matching engine that
//! crosses incoming orders against the opposite ladder under per-type
//! policies (Limit, Market, IOC, FOK, GTC, GFD), and a sequenced
//! market-data ingest path that applies messages to the book.
//!
//! Prices and quantities are fixed-point integers at a scale of
//! 1,000,000 units per whole; no floating point enters the book.

pub mod external;
pub mod laws;
pub mod model;
pub mod market_data;
pub mod matching;
pub mod orderbook;
pub mod types;
