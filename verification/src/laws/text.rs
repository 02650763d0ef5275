//! Numbers, bytes and order in text.
use vstd::prelude::*;
use vstd::utf8::{encode_utf8, encode_utf8_decode_utf8, encode_utf8_valid_utf8, valid_utf8};

use crate::hashing::hex_of;
use crate::text::{
    all_digits, decimal, digits_value, latin1, parse_signed, parse_unsigned, text_less,
    text_less_from, utf8_or_empty,
};
use crate::url::{encoded_byte, is_unreserved, upper_hex, url_encoded};

verus! {

/// The number that a text of digits stands for.
pub open spec fn number_in(text: Seq<char>) -> int
    decreases text.len(),
{
    if text.len() == 0 {
        0
    } else {
        10 * number_in(text.drop_last()) + (text.last() as int - '0' as int)
    }
}

/// A number is written in digits, without needless zeros in front, and the digits stand
/// for it.
pub proof fn lemma_decimal(n: nat)
    ensures
        number_in(decimal(n)) == n,
        decimal(n).len() > 0,
        decimal(n)[0] == '0' ==> n == 0,
        n == 0 ==> decimal(n).len() == 1,
        forall|i: int| 0 <= i < decimal(n).len() ==> '0' <= #[trigger] decimal(n)[i] <= '9',
    decreases n,
{
    reveal_with_fuel(number_in, 3);
    if n < 10 {
        assert(decimal(n).drop_last() =~= Seq::empty());
    } else {
        lemma_decimal(n / 10);
        assert(decimal(n).drop_last() =~= decimal(n / 10));
        assert(decimal(n)[0] == decimal(n / 10)[0]);
    }
}

/// The bytes of a text whose characters are all ASCII.
pub open spec fn ascii_bytes(text: Seq<char>) -> Seq<u8> {
    Seq::new(text.len(), |i: int| text[i] as u8)
}

proof fn lemma_digits_of_decimal(n: nat)
    ensures
        all_digits(ascii_bytes(decimal(n))),
        digits_value(ascii_bytes(decimal(n))) == n,
        ascii_bytes(decimal(n)).len() > 0,
        48 <= ascii_bytes(decimal(n))[0] <= 57,
    decreases n,
{
    lemma_decimal(n);
    reveal_with_fuel(digits_value, 3);
    let bytes = ascii_bytes(decimal(n));
    if n < 10 {
        assert(bytes.drop_last() =~= Seq::empty());
    } else {
        lemma_digits_of_decimal(n / 10);
        assert(decimal(n).drop_last() =~= decimal(n / 10));
        assert(bytes.drop_last() =~= ascii_bytes(decimal(n / 10)));
    }
}

/// A number that was written is read back, with or without a plus sign, where it is not
/// too large; with a minus sign its opposite is read where there may be one.
pub proof fn lemma_numbers_are_read_back(n: nat, max: nat)
    ensures
        n <= max ==> parse_unsigned(ascii_bytes(decimal(n)), max) == Some(n),
        n <= max ==> parse_unsigned(seq![43u8] + ascii_bytes(decimal(n)), max) == Some(n),
        n > max ==> parse_unsigned(ascii_bytes(decimal(n)), max) is None,
        parse_unsigned(seq![45u8] + ascii_bytes(decimal(n)), max) is None,
        n <= i64::MAX ==> parse_signed(ascii_bytes(decimal(n))) == Some(n as i64),
        n <= i64::MAX ==> parse_signed(seq![43u8] + ascii_bytes(decimal(n))) == Some(n as i64),
        n <= i64::MAX ==> parse_signed(seq![45u8] + ascii_bytes(decimal(n))) == Some(
            (0 - n) as i64,
        ),
        n > i64::MAX + 1 ==> parse_signed(ascii_bytes(decimal(n))) is None && parse_signed(
            seq![45u8] + ascii_bytes(decimal(n)),
        ) is None,
{
    lemma_digits_of_decimal(n);
    let digits = ascii_bytes(decimal(n));
    let plus = seq![43u8] + digits;
    let minus = seq![45u8] + digits;
    assert(plus.skip(1) =~= digits);
    assert(minus.skip(1) =~= digits);
    assert(minus[0] == 45);
    assert(plus[0] == 43);
    assert(!all_digits(minus));
}

/// Only digits are read as a number, at least one, with a sign in front or not.
pub proof fn lemma_only_digits_are_numbers(s: Seq<u8>, max: nat, i: int)
    requires
        s.len() == 0 || (0 < i < s.len() && !(48 <= s[i] <= 57)) || (s.len() == 1 && !(48 <= s[0]
            <= 57)),
    ensures
        parse_unsigned(s, max) is None,
        parse_signed(s) is None,
{
    if s.len() > 1 {
        assert(s.skip(1)[i - 1] == s[i]);
        assert(!all_digits(s.skip(1)));
        assert(!all_digits(s));
    } else if s.len() == 1 {
        assert(s.skip(1).len() == 0);
        assert(s[0] == s[0]);
        assert(!all_digits(s));
    }
}

/// The number that a hexadecimal digit stands for, capital letters only.
pub open spec fn hex_digit(c: char) -> int {
    if '0' <= c <= '9' {
        c as int - '0' as int
    } else {
        c as int - 'A' as int + 10
    }
}

/// The bytes that an encoded text stands for: a percent sign and two hexadecimal digits
/// for a byte, any other character for itself.
pub open spec fn percent_decoded(text: Seq<char>) -> Seq<u8>
    decreases text.len(),
{
    if text.len() == 0 {
        Seq::empty()
    } else if text[0] == '%' && text.len() >= 3 {
        seq![(16 * hex_digit(text[1]) + hex_digit(text[2])) as u8] + percent_decoded(text.skip(3))
    } else {
        seq![text[0] as u8] + percent_decoded(text.skip(1))
    }
}

proof fn lemma_encoded_from_front(data: Seq<u8>)
    requires
        data.len() > 0,
    ensures
        url_encoded(data) == encoded_byte(data[0]) + url_encoded(data.skip(1)),
    decreases data.len(),
{
    if data.len() == 1 {
        assert(data.drop_last() =~= Seq::empty());
        assert(data.skip(1) =~= Seq::empty());
        assert(url_encoded(data) =~= encoded_byte(data[0]) + url_encoded(data.skip(1)));
    } else {
        lemma_encoded_from_front(data.drop_last());
        assert(data.drop_last().skip(1) =~= data.skip(1).drop_last());
        assert(data.skip(1).last() == data.last());
        assert(url_encoded(data) =~= encoded_byte(data[0]) + url_encoded(data.skip(1)));
    }
}

/// Bytes that are written in a URL stand for themselves, or for nothing else: decoding
/// gives them back. Letters, digits and `-`, `.`, `_` and `~` are written as they are.
pub proof fn lemma_url_encoding(data: Seq<u8>)
    ensures
        percent_decoded(url_encoded(data)) == data,
        forall|b: u8|
            ('0' as u8 <= b <= '9' as u8 || 'A' as u8 <= b <= 'Z' as u8 || 'a' as u8 <= b
                <= 'z' as u8 || b == '-' as u8 || b == '.' as u8 || b == '_' as u8 || b
                == '~' as u8) <==> #[trigger] encoded_byte(b).len() == 1,
    decreases data.len(),
{
    if data.len() > 0 {
        lemma_encoded_from_front(data);
        lemma_url_encoding(data.skip(1));
        let byte = data[0];
        let rest = url_encoded(data.skip(1));
        let text = url_encoded(data);
        if is_unreserved(byte) {
            assert(text[0] == byte as char);
            assert(text.skip(1) =~= rest);
            assert(percent_decoded(text) =~= seq![byte] + data.skip(1));
        } else {
            let high = byte as int / 16;
            let low = byte as int % 16;
            assert(text[0] == '%' && text[1] == upper_hex(high) && text[2] == upper_hex(low));
            assert(text.skip(3) =~= rest);
            assert(hex_digit(upper_hex(high)) == high);
            assert(hex_digit(upper_hex(low)) == low);
            assert(percent_decoded(text) =~= seq![byte] + data.skip(1));
        }
        assert(seq![byte] + data.skip(1) =~= data);
    }
}

/// Texts are ordered by the first character in which they differ, and a text stands
/// before those that it begins.
pub proof fn lemma_first_difference_orders(a: Seq<char>, b: Seq<char>, at: int)
    requires
        0 <= at <= a.len(),
        at <= b.len(),
        a.take(at) == b.take(at),
    ensures
        at < a.len() && at < b.len() && a[at] < b[at] ==> text_less(a, b) && !text_less(b, a),
        at == a.len() && at < b.len() ==> text_less(a, b) && !text_less(b, a),
{
    lemma_less_from(a, b, 0, at);
    lemma_less_from(b, a, 0, at);
}

proof fn lemma_less_from(a: Seq<char>, b: Seq<char>, from: int, at: int)
    requires
        0 <= from <= at <= a.len(),
        at <= b.len(),
        a.take(at) == b.take(at),
    ensures
        text_less_from(a, b, from) == text_less_from(a, b, at),
    decreases at - from,
{
    if from < at {
        assert(a[from] == a.take(at)[from] && b[from] == b.take(at)[from]);
        lemma_less_from(a, b, from + 1, at);
    }
}

/// A text that is written in UTF-8 is read back, and bytes that are not UTF-8 are read as
/// no text at all. Where each byte is a character, the character has the byte's number.
pub proof fn lemma_bytes_as_text(text: Seq<char>, bytes: Seq<u8>)
    ensures
        utf8_or_empty(encode_utf8(text)) == text,
        !valid_utf8(bytes) ==> utf8_or_empty(bytes).len() == 0,
        latin1(bytes).len() == bytes.len(),
        forall|i: int| 0 <= i < bytes.len() ==> #[trigger] latin1(bytes)[i] as int == bytes[i],
{
    encode_utf8_valid_utf8(text);
    encode_utf8_decode_utf8(text);
}

/// The number that a hexadecimal digit stands for, small letters only.
pub open spec fn small_hex_digit(c: char) -> int {
    if '0' <= c <= '9' {
        c as int - '0' as int
    } else {
        c as int - 'a' as int + 10
    }
}

/// A digest is shown as two hexadecimal digits for each byte, the more significant one
/// first, in small letters.
pub proof fn lemma_hexadecimal(data: Seq<u8>, i: int)
    requires
        0 <= i < data.len(),
    ensures
        hex_of(data).len() == 2 * data.len(),
        16 * small_hex_digit(hex_of(data)[2 * i]) + small_hex_digit(hex_of(data)[2 * i + 1])
            == data[i],
        '0' <= hex_of(data)[2 * i] <= '9' || 'a' <= hex_of(data)[2 * i] <= 'f',
        '0' <= hex_of(data)[2 * i + 1] <= '9' || 'a' <= hex_of(data)[2 * i + 1] <= 'f',
{
}

} // verus!
