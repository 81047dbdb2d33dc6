//! A single-instrument limit order book and matching core.
//!
//! The book accepts resting limit orders and incoming market orders,
//! keeps price-ordered queues of resting liquidity, and matches incoming
//! demand against the best available resting supply under strict price
//! priority and FIFO priority within a price level.

pub mod book;
pub mod engine;
pub mod errors;
pub mod level;
pub mod order;
pub mod price;
