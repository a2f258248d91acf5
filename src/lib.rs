//! Typed access to the exchange-offer archive: rates, cities, exchangers
//! and currencies, parsed from semicolon-delimited text entries.

pub mod catalog;
pub mod outside;
pub mod rate;
pub mod ratio;
pub mod records;
pub mod text;

pub use catalog::{City, Currency, Exchanger};
pub use rate::Rate;
pub use ratio::Ratio;
pub use records::{FieldFault, LoadError, NotFound};
pub use text::{chars_of, Decimal, parse_decimal, parse_id, split_on};
