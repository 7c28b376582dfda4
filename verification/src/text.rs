//! Hexadecimal text of byte strings, by the `hex` crate.
use vstd::prelude::*;

verus! {

/// The hexadecimal digit of a nibble, lower or upper case.
pub open spec fn hex_digit(n: u8, upper: bool) -> char {
    if n < 10 {
        (48 + n) as char
    } else if upper {
        (55 + n) as char
    } else {
        (87 + n) as char
    }
}

/// Two hexadecimal digits per byte, high nibble first.
pub open spec fn spec_hex(data: Seq<u8>, upper: bool) -> Seq<char> {
    Seq::new(
        2 * data.len(),
        |i: int|
            if i % 2 == 0 {
                hex_digit(data[i / 2] >> 4, upper)
            } else {
                hex_digit(data[i / 2] & 0x0f, upper)
            },
    )
}

/// `hex::encode`: each byte as two lower-case hexadecimal digits, high
/// nibble first.
#[verifier::external_body]
pub(crate) fn hex_lower(data: &[u8]) -> (s: String)
    ensures
        s@ == spec_hex(data@, false),
{
    hex::encode(data)
}

/// `hex::encode_upper`: each byte as two upper-case hexadecimal digits, high
/// nibble first.
#[verifier::external_body]
pub(crate) fn hex_upper(data: &[u8]) -> (s: String)
    ensures
        s@ == spec_hex(data@, true),
{
    hex::encode_upper(data)
}

} // verus!
