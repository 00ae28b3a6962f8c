//! A limit-order matching engine for a two-asset book: price-time priority
//! matching over per-side level tables, a registry of in-flight matches, and a
//! balance ledger that settlement moves value through.
pub mod error;
pub mod exchange;
pub mod ledger;
pub mod level;
pub mod level_table;
pub mod order;
pub mod orderbook;

pub use orderbook::cmp;
