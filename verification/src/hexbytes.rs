//! Hexadecimal text for byte runs, and the exact meaning of the outside
//! encoder and decoder the library calls.

use vstd::prelude::*;

verus! {

/// The lowercase digit character for a value below sixteen.
pub open spec fn hex_digit(d: u8) -> char
    recommends
        d < 16,
{
    if d < 10 {
        ((0x30 + d) as u8) as char
    } else {
        ((0x57 + d) as u8) as char
    }
}

/// The lowercase hexadecimal spelling of a byte run: two digits per byte,
/// high nibble first.
pub open spec fn hex_of(s: Seq<u8>) -> Seq<char> {
    Seq::new(
        2 * s.len(),
        |i: int|
            if i % 2 == 0 {
                hex_digit(s[i / 2] / 16)
            } else {
                hex_digit(s[i / 2] % 16)
            },
    )
}

/// Whether an ASCII byte spells a hexadecimal digit, either case.
pub open spec fn is_hex_digit_byte(b: u8) -> bool {
    (0x30 <= b && b <= 0x39) || (0x61 <= b && b <= 0x66) || (0x41 <= b && b <= 0x46)
}

/// The value of an ASCII hexadecimal digit.
pub open spec fn hex_val(b: u8) -> u8
    recommends
        is_hex_digit_byte(b),
{
    if 0x30 <= b && b <= 0x39 {
        (b - 0x30) as u8
    } else if 0x61 <= b && b <= 0x66 {
        (b - 0x61 + 10) as u8
    } else {
        (b - 0x41 + 10) as u8
    }
}

/// Whether a byte run is decodable hexadecimal text: even length, digits only.
pub open spec fn hex_text_ok(s: Seq<u8>) -> bool {
    &&& s.len() % 2 == 0
    &&& forall|i: int| 0 <= i < s.len() ==> is_hex_digit_byte(#[trigger] s[i])
}

/// The bytes that a run of hexadecimal text spells.
pub open spec fn hex_decoded(s: Seq<u8>) -> Seq<u8>
    recommends
        hex_text_ok(s),
{
    Seq::new(s.len() / 2, |i: int| (hex_val(s[2 * i]) * 16 + hex_val(s[2 * i + 1])) as u8)
}

/// Relies on hex::encode: two lowercase digits for each byte, in order.
#[verifier::external_body]
pub fn encode_hex(data: &[u8]) -> (r: String)
    ensures
        r@ == hex_of(data@),
{
    hex::encode(data)
}

/// Relies on hex::decode: succeeds exactly on even-length runs of digits of
/// either case, and pairs each two digits into one byte.
#[verifier::external_body]
pub fn decode_hex(data: &[u8]) -> (r: Option<Vec<u8>>)
    ensures
        r is Some <==> hex_text_ok(data@),
        r is Some ==> r->0@ == hex_decoded(data@),
{
    match hex::decode(data) {
        Ok(v) => Some(v),
        Err(_) => None,
    }
}

} // verus!
