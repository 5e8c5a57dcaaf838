//! The digest a block's hash field is derived from: SHA3-256 over the
//! canonical encoding of `(index, timestamp, transactions)`, written as
//! lowercase hex.

use vstd::prelude::*;

use sha3::{Digest, Sha3_256};

verus! {

/// What SHA3-256 returns for the given bytes: a function of the input alone.
pub uninterp spec fn sha3_of(data: Seq<u8>) -> Seq<u8>;

/// The lowercase hex digit for a value below sixteen.
pub open spec fn hex_digit(n: u8) -> char
    recommends
        n < 16,
{
    seq!['0', '1', '2', '3', '4', '5', '6', '7', '8', '9', 'a', 'b', 'c', 'd', 'e', 'f'][n as int]
}

/// Each byte as two lowercase hex digits, high nibble first.
pub open spec fn hex_chars_of(bytes: Seq<u8>) -> Seq<char> {
    Seq::new(
        bytes.len() * 2,
        |i: int|
            if i % 2 == 0 {
                hex_digit(bytes[i / 2] >> 4)
            } else {
                hex_digit(bytes[i / 2] & 0x0f)
            },
    )
}

/// Relies on `sha3::Sha3_256::digest`: a 256-bit digest that depends on the
/// input bytes alone.
#[verifier::external_body]
pub fn sha3_256(data: &[u8]) -> (r: Vec<u8>)
    ensures
        r@ == sha3_of(data@),
        r@.len() == 32,
{
    Sha3_256::digest(data).to_vec()
}

/// Relies on `hex::encode`: two lowercase hex digits for each byte, high
/// nibble first.
#[verifier::external_body]
pub fn hex_encode(data: &[u8]) -> (r: String)
    ensures
        r@ == hex_chars_of(data@),
{
    hex::encode(data)
}

} // verus!
