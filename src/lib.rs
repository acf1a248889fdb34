//! ULIDs: 128-bit identifiers made of a 48-bit millisecond timestamp and an
//! 80-bit random payload, written as 26 Crockford Base32 symbols that sort in
//! time order.
use vstd::prelude::*;

pub mod codec;
pub mod engine;
mod entropy;
pub mod ulid;
pub mod text;
pub mod uuid;

pub use codec::{decode_base32, encode_base32};
pub use engine::UlidState;
pub use ulid::{
    ulid_from_str, ulid_is_valid, ulid_random, ulid_timestamp, ulid_with_timestamp, Ulid,
    RANDOM_MAX, TIMESTAMP_MAX,
};
pub use uuid::{ulid_to_uuid, uuid_to_ulid};



verus! {

/// What can go wrong in decoding, parsing or generating identifiers.
#[derive(Debug, Clone, Copy, PartialEq, Eq, Structural)]
pub enum UlidError {
    /// A Base32 decode met a byte outside the alphabet; it is given as a character.
    InvalidCharacter(char),
    /// An identifier's text is not exactly 26 bytes long.
    LengthMismatch,
    /// UUID text is not 32 characters once hyphens are removed, or a ULID's
    /// text holds a byte outside the alphabet.
    FormatError,
    /// UUID text holds a character that is not a hexadecimal digit.
    InvalidHex,
    /// Strict generation ran out of random values within one millisecond.
    RandomOverflow,
    /// Strict generation saw the clock earlier than the last timestamp issued.
    ClockRegression,
}

} // verus!
