//! A single-process limit order matching engine: per-symbol price/time-priority
//! books, a write-ahead log of accepted orders, snapshots, and restore by
//! snapshot load plus log replay.

pub mod book;
pub mod codec;
pub mod engine;
pub mod matching;
pub mod wal;

pub use book::Fill;
pub use book::Order;
pub use book::OrderBook;
pub use book::RestingOrder;
pub use book::Side;
