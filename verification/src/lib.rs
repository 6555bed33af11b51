//! Conversion between `usize` numbers and their text in radix 62.
//!
//! The digits are the upper-case letters, then the lower-case letters, then
//! the decimal figures. [`encode`] writes a number most significant digit
//! first; [`decode`] reads such text back, rejecting foreign characters and
//! values that do not fit a `usize`.

pub mod alphabet;
pub mod codec;
pub mod error;
pub mod laws;
pub mod numeral;

pub use alphabet::{to_char, to_num, BASE};
pub use codec::{decode, encode};
pub use error::Base62Error;
