//! Hardware addresses in text, through the eui48 crate.

use vstd::prelude::*;

verus! {

/// The lowercase hexadecimal digit with value `n`.
pub open spec fn hex_digit(n: int) -> char {
    seq!['0', '1', '2', '3', '4', '5', '6', '7', '8', '9', 'a', 'b', 'c', 'd', 'e', 'f'][n]
}

/// Two lowercase hexadecimal digits for `x`, high digit first.
pub open spec fn hex_pair(x: u8) -> Seq<char> {
    seq![hex_digit(x as int / 16), hex_digit(x as int % 16)]
}

/// The canonical text of a six-byte address: `xx-xx-xx-xx-xx-xx`.
pub open spec fn mac_text(b: Seq<u8>) -> Seq<char> {
    hex_pair(b[0]) + seq!['-'] + hex_pair(b[1]) + seq!['-'] + hex_pair(b[2]) + seq!['-']
        + hex_pair(b[3]) + seq!['-'] + hex_pair(b[4]) + seq!['-'] + hex_pair(b[5])
}

/// Relies on `eui48::MacAddress::to_canonical`, which formats the six bytes
/// of the address as `{:02x}` each, joined by `-`.
#[verifier::external_body]
pub(crate) fn mac_canonical(b: [u8; 6]) -> (r: String)
    ensures
        r@ == mac_text(b@),
{
    eui48::MacAddress::new(b).to_canonical()
}

} // verus!
