//! Encode & decode base64 to & from arbitrary byte sequences.
//!
//! All encoding & decoding is done via the [`Base64String`]
//! struct, using an alphabet implementing the
//! [`Alphabet`](alphabet::Alphabet) trait.

use vstd::prelude::*;

pub mod alphabet;
pub mod base64string;
pub mod laws;

pub use base64string::Base64String;
pub use base64string::DecodeError;

verus! {

/// An error raised by the encoding or decoding engine itself.
#[derive(Debug, Clone, Copy, PartialEq, Eq, Structural)]
pub enum B64Error {
    /// A value outside the 6-bit integer range was handed to an alphabet.
    BitsOOB(u8),
    /// A character outside the alphabet's symbol set (and not its padding)
    /// was found while decoding.
    InvalidChar(char),
}

} // verus!
