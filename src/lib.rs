//! Candle (OHLCV) aggregation over a stream of trades, with subscription
//! filtered fan-out of trades and candle updates.

pub mod closing;
pub mod kline;
pub mod service;
pub mod subscription;
mod store;
pub mod time_interval;
pub mod transaction;

pub use kline::{Bar, KLine};
pub use service::KLineService;
pub use time_interval::{TimeInterval, Timestamp};
pub use transaction::Transaction;
