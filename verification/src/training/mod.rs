//! Turning trades into labelled feature rows.
//!
//! Trades in the order of time are gathered into buckets of one width. Each
//! bucket that has volume becomes one tick. A tick's features are held back
//! until the price at the end of the label window is known; then the row is
//! labelled and written to the shard of its month.
//!
//! Arithmetic on prices and quantities is the caller's: it is handed the values
//! to work on and hands back the results. What is decided by them is decided
//! here.

pub mod bucket;
pub mod config;
pub mod features;
pub mod feed;
pub mod labeller;
pub mod laws;
pub mod pipeline;
pub mod shards;
pub mod trade;
pub mod volatility;
