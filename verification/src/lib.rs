//! A binary-to-text encoding with an alphabet of 2048 symbols, so that every
//! symbol carries 11 bits.
//!
//! [`encode`] writes a byte sequence as a string of symbols and [`decode`]
//! reads such a string back, or refuses it:
//!
//! ```text
//! let text = base2048::encode(b"hello");
//! assert_eq!(text.chars().count(), 4);
//! assert_eq!(base2048::decode(&text), Some(b"hello".to_vec()));
//! assert_eq!(base2048::decode("hello"), None);
//! ```
//!
//! Both functions are verified against a model of the bit strings involved:
//! `bits` holds the model, `alphabet` the two tables of symbols, and
//! `theorems` what follows for the two functions together, first of all that
//! decoding undoes encoding.

pub mod accumulator;
pub mod alphabet;
pub mod bits;
pub mod decoder;
pub mod encoder;
pub mod theorems;

pub use crate::decoder::decode;
pub use crate::encoder::encode;
