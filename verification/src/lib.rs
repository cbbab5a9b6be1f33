//! The data handling of a crypto market overview: decoding the tickers of
//! an exchange, choosing and ranking the ones to show, and formatting
//! their numbers for display.
//!
//! The numeric fields of a ticker are text. Where a number is needed, the
//! text is read as a decimal literal and rounded to the nearest IEEE 754
//! binary64 number, which the library holds as integers: it computes with
//! exact integer arithmetic throughout.
//!
//! - [`wire`] builds tickers from the members of the provider's JSON
//!   objects;
//! - [`select`] keeps the tickers with an allowed suffix, ranks them by
//!   volume and caps their count;
//! - [`format`] classifies a change by its sign and writes volumes and
//!   prices;
//! - [`fetch`] names the addresses to ask, the errors of a fetch, and the
//!   states of a view that waits for one;
//! - [`pages`] holds the rules of the counter and of the page of a path;
//! - [`literal`], [`decimal`], [`binary64`], [`arith`], [`fixed`] and
//!   [`digits`] read, round, compare, divide and write numbers.

pub mod arith;
pub mod binary64;
pub mod decimal;
pub mod digits;
pub mod fetch;
pub mod fixed;
pub mod format;
pub mod literal;
pub mod pages;
pub mod select;
pub mod text;
pub mod ticker;
pub mod wire;

pub use format::{format_number, format_volume, get_price_change_class};
pub use ticker::TickerData;
