//! Merging the order books of several crypto exchanges into one book of the
//! best prices.
//!
//! Prices and amounts are fixed-point integers: one whole coin (or quote unit)
//! is `decimal::UNITS_PER_WHOLE` units.
pub mod decimal;
pub mod orderbook;
pub mod merge;
pub mod triplebuffer;
pub mod exchanges;
pub mod console;
pub mod server;
