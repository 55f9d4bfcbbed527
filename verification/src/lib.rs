//! A bidirectional codec between byte sequences and two human-readable
//! text encodings: a binary-digit string ("01101000...") and a lowercase
//! hexadecimal string ("68..."), each with an optional per-byte reversal
//! mode. Encoding never fails; decoding rejects malformed text with an
//! [`Error`] value.

use vstd::prelude::*;

pub mod bin;
pub mod bits;
pub mod hex;

pub use bin::from_bin_str;
pub use bin::to_bin_str;
pub use hex::from_hex_str;
pub use hex::to_hex_str;

verus! {

/// Why a decode rejected its input text.
#[derive(Clone, Copy, Debug, PartialEq, Eq)]
pub enum Error {
    /// The text's length is not a multiple of the encoding's group size
    /// (eight characters per byte for binary digits, two for hex).
    InvalidLength { len: usize, must_be_multiple_of: usize },
    /// The text holds a character outside the encoding's alphabet.
    InvalidChar(char),
}

} // verus!
