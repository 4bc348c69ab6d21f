//! A single-instrument continuous matching engine with price-time priority.
//!
//! Resting orders live in an [`OrderBook`]; an incoming order is crossed
//! against the opposite side until it is filled or no resting order crosses,
//! every trade at the resting order's price, and whatever remains of it rests
//! in the book. Prices and quantities are [`Fixed`] decimals.
pub mod book;
pub mod fixed;
pub mod laws;
pub mod matching;
pub mod order;

pub use book::{BookError, OrderBook, SubmitError};
pub use fixed::{Fixed, MAX_DECIMAL_SCALE, SCALE};
pub use order::{has_priority, price_crosses, validate, Order, Side, Trade, ValidationError};
