//! Conversion between human-readable data sizes and exact byte counts.
//!
//! [`unbytify`] reads a size such as `1.5K`, `42 MiB` or `1024` and returns
//! the number of bytes it stands for; [`bytify`] picks the binary unit that
//! suits a byte count and reports the count in thousandths of that unit.
//!
//! Both share one table of binary units, from bytes to exbibytes. Both take
//! numbers in double precision: a number that is no whole number of bytes
//! stands for the nearest number of fifty-three significant bits, as
//! arithmetic in IEEE 754 binary64 would have it. The library works that
//! out in whole numbers, and every result is stated exactly.
//!
//! ```text
//! unbytify("1.5K")   == Ok(1536)
//! unbytify("1O")     == Err(ParseError::Invalid)
//! unbytify("42E")    == Err(ParseError::Overflow)
//! bytify(1536)       == (1500, "KiB")
//! ```

pub mod binary;
pub mod decimal;
pub mod format;
pub mod laws;
pub mod number;
pub mod parse;
pub mod text;
pub mod units;

pub use format::bytify;
pub use parse::{unbytify, ParseError};
pub use units::{unit_letter, unit_multiplier, unit_suffix, UNIT_COUNT};
