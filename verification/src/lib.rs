//! Temperature conversion between Fahrenheit and Celsius.
//!
//! A temperature is read from a text such as `32C`, `81f` or `74`, converted
//! to the other unit, or to both where the text names none, and written
//! back as text.
//!
//! Values are exact decimal numbers, not binary floating point: `73.4` is
//! seventy-three and four tenths, of whatever size, and a conversion is
//! rounded to one decimal place exactly as the formula says. Every function
//! has a contract over the mathematical value, and every contract is proved.

pub mod cli;
pub mod decimal;
pub mod digits;
pub mod error;
pub mod exact;
pub mod laws;
pub mod page;
pub mod temperature;

pub use decimal::Decimal;
pub use error::FcError;
pub use temperature::{convert, parse_str_to_t, TUnit, T};
