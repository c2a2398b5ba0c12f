//! A limit order book and price-time priority matching engine, with a
//! bounded ring buffer for order ingestion, a synthetic order generator, and
//! a latency recorder.
pub mod book;
pub mod book_laws;
pub mod concurrent;
pub mod engine;
pub mod generator;
pub mod rng;
pub mod stats;
pub mod types;

pub use book::OrderBook;
pub use engine::MatchingEngine;
pub use generator::OrderGenerator;
pub use stats::LatencyRecorder;
pub use types::{Order, OrderId, Price, Quantity, Side, Trade};
