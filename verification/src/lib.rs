//! A verified store of daily currency-to-EUR exchange rates with
//! point-in-time conversion, linear-interpolation fallback for dates
//! that have no directly recorded rate, and exact decimal arithmetic.

pub mod decimal;
pub mod dates;
pub mod currency;
pub mod rate;
pub mod store;
pub mod interpolate;
pub mod convert;
pub mod feed;

pub use convert::ConversionError;
pub use currency::{Currency, CurrencyParser, Money};
pub use dates::Day;
pub use decimal::Dec;
pub use rate::{Exchange, ExchangeRate, RateError};
pub use store::{ExchangeStore, InitError, RateRow, StoreError, SyncError};
pub use interpolate::InterpolationError;
