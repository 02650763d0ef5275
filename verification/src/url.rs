//! Bytes in the query of a URL.
use vstd::prelude::*;

verus! {

/// The most bytes that are encoded at once.
pub const MAX_ENCODED_LEN: usize = 0x1000_0000;

/// The byte stands for itself in a query: an ASCII letter or digit, or one of
/// `-`, `.`, `_` and `~`.
pub open spec fn is_unreserved(byte: u8) -> bool {
    ||| 48 <= byte <= 57
    ||| 65 <= byte <= 90
    ||| 97 <= byte <= 122
    ||| byte == 45
    ||| byte == 46
    ||| byte == 95
    ||| byte == 126
}

/// A digit in hexadecimal, in capitals.
pub open spec fn upper_hex(digit: int) -> char {
    if digit < 10 {
        (48 + digit) as char
    } else {
        (55 + digit) as char
    }
}

/// A byte in a query: itself, or a percent sign and two digits.
pub open spec fn encoded_byte(byte: u8) -> Seq<char> {
    if is_unreserved(byte) {
        seq![byte as char]
    } else {
        seq!['%', upper_hex(byte as int / 16), upper_hex(byte as int % 16)]
    }
}

/// Bytes in a query.
pub open spec fn url_encoded(data: Seq<u8>) -> Seq<char>
    decreases data.len(),
{
    if data.len() == 0 {
        Seq::empty()
    } else {
        url_encoded(data.drop_last()) + encoded_byte(data.last())
    }
}

/// `urlencoding::encode_binary`: every byte that does not stand for itself is
/// written as a percent sign and two hexadecimal digits in capitals.
#[verifier::external_body]
pub(crate) fn encode_binary(data: &[u8]) -> (text: String)
    requires
        data@.len() <= MAX_ENCODED_LEN,
    ensures
        text@ == url_encoded(data@),
{
    urlencoding::encode_binary(data).into_owned()
}

} // verus!
