//! Base32 encoding and decoding with a choice of alphabets.
//!
//! An [`Encoding`] selects one of four built-in alphabets (the two RFC 4648
//! alphabets, Crockford's alphabet, and z-base-32) together with an optional
//! padding byte. The encoder turns raw bytes into base32 text; the decoder
//! validates every input byte against the alphabet and inverts the transform.
//!
//! Buffer sizes are computed by [`Encoding::encoded_size`] and
//! [`Encoding::decoded_size`]; the preconditions of the `to_slice` entry
//! points spell out exactly how large the output buffer must be.

use vstd::prelude::*;

pub mod tables;
pub mod encode;
pub mod decode;
pub mod laws;

pub use crate::decode::decode;
pub use crate::decode::DecodeError;
pub use crate::encode::encode;

verus! {

/// Identifies which pair of symbol/inverse lookup tables an [`Encoding`] uses.
#[derive(Copy, Clone, Debug, PartialEq, Eq, Structural)]
pub enum Alphabet {
    /// RFC 4648 standard alphabet: `A`-`Z` followed by `2`-`7`.
    Standard,
    /// RFC 4648 extended-hex alphabet: `0`-`9` followed by `A`-`V`.
    ExtendedHex,
    /// Douglas Crockford's alphabet: `0`-`9` and the letters without I, L, O, U.
    Crockford,
    /// z-base-32, a permuted alphabet chosen for human friendliness.
    ZBase32,
}

/// An encoding specification: an alphabet plus an optional padding byte.
#[derive(Copy, Clone, Debug)]
pub struct Encoding {
    /// The alphabet the symbols are drawn from.
    pub alpha: Alphabet,
    /// The padding byte appended to partial blocks, if any.
    pub pad: Option<u8>,
}

impl Encoding {
    /// Changes or disables padding, returning the modified copy.
    pub fn with_padding(self, pad: Option<u8>) -> (r: Encoding)
        ensures
            r.alpha == self.alpha,
            r.pad == pad,
    {
        Encoding { pad, ..self }
    }
}

impl Default for Encoding {
    /// The default configuration is the RFC 4648 standard one.
    fn default() -> (r: Self)
        ensures
            r.alpha == Alphabet::Standard,
            r.pad == Some(61u8),
    {
        standard()
    }
}

/// The configuration that [`standard`] returns.
pub open spec fn spec_standard() -> Encoding {
    Encoding { alpha: Alphabet::Standard, pad: Some(61u8) }
}

/// The most widely used base32 configuration, from RFC 4648: alphabet
/// `A`-`Z` then `2`-`7` (0 and 1 are skipped for their similarity with the
/// letters O and I), padded with `=`.
pub fn standard() -> (r: Encoding)
    ensures
        r == spec_standard(),
        r.alpha == Alphabet::Standard,
        r.pad == Some(61u8),
{
    Encoding { alpha: Alphabet::Standard, pad: Some(61u8) }
}

/// The extended-hex configuration from RFC 4648: `0`-`9` then `A`-`V`,
/// padded with `=`.
pub fn extended_hex() -> (r: Encoding)
    ensures
        r.alpha == Alphabet::ExtendedHex,
        r.pad == Some(61u8),
{
    Encoding { alpha: Alphabet::ExtendedHex, pad: Some(61u8) }
}

/// Douglas Crockford's base32 configuration: digits and letters excluding
/// I, L, O and U, with no padding. Checksum symbols are not supported.
pub fn crockford() -> (r: Encoding)
    ensures
        r.alpha == Alphabet::Crockford,
        r.pad == None::<u8>,
{
    Encoding { alpha: Alphabet::Crockford, pad: None }
}

/// The z-base-32 configuration: a permuted lowercase alphabet designed for
/// human use, with no padding.
pub fn zbase32() -> (r: Encoding)
    ensures
        r.alpha == Alphabet::ZBase32,
        r.pad == None::<u8>,
{
    Encoding { alpha: Alphabet::ZBase32, pad: None }
}

} // verus!
