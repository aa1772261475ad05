//! Lowercase hexadecimal rendering of identifiers.

use vstd::prelude::*;

verus! {

/// The lowercase hex character of a nibble.
pub open spec fn hex_digit(n: u8) -> u8
    recommends
        n < 16,
{
    if n < 10 {
        (48 + n) as u8
    } else {
        (87 + n) as u8
    }
}

/// Each byte becomes two lowercase hex digits, high nibble first.
pub open spec fn hex_spec(s: Seq<u8>) -> Seq<u8>
    decreases s.len(),
{
    if s.len() == 0 {
        Seq::<u8>::empty()
    } else {
        seq![hex_digit(s[0] / 16), hex_digit(s[0] % 16)] + hex_spec(s.skip(1))
    }
}

pub proof fn lemma_hex_spec_len(s: Seq<u8>)
    ensures
        hex_spec(s).len() == 2 * s.len(),
    decreases s.len(),
{
    if s.len() > 0 {
        lemma_hex_spec_len(s.skip(1));
    }
}

/// Relies on `hex::encode`: every input byte becomes exactly two lowercase
/// hexadecimal digits, high nibble first.
#[verifier::external_body]
pub fn hex_encode(b: &Vec<u8>) -> (r: Vec<u8>)
    ensures
        r@ == hex_spec(b@),
{
    hex::encode(b.as_slice()).into_bytes()
}

} // verus!
