//! Historical BTC/USD trade collection and labelled training-set generation.

pub mod binary64;
pub mod calendar;
pub mod historical;
pub mod text;
pub mod training;
