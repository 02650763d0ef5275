//! Decimal numbers and strings: how they are read, written and ordered.
use vstd::prelude::*;
use vstd::string::*;
use vstd::utf8::{decode_utf8, valid_utf8};

verus! {

/// A character is put at the end of the string (`String::push`).
pub assume_specification[ std::string::String::push ](text: &mut std::string::String, c: char)
    ensures
        final(text)@ == old(text)@.push(c),
;

/// `String::from_utf8`: the text that the bytes encode, or nothing where they
/// are no UTF-8.
#[verifier::external_body]
pub(crate) fn string_from_utf8(bytes: Vec<u8>) -> (text: Option<String>)
    ensures
        text is Some <==> valid_utf8(bytes@),
        text matches Some(s) ==> s@ == decode_utf8(bytes@),
{
    String::from_utf8(bytes).ok()
}

/// The text of a byte string that may not be UTF-8: empty where it is not.
pub open spec fn utf8_or_empty(bytes: Seq<u8>) -> Seq<char> {
    if valid_utf8(bytes) {
        decode_utf8(bytes)
    } else {
        Seq::empty()
    }
}

/// The text in which every byte stands for the character with its number.
pub open spec fn latin1(bytes: Seq<u8>) -> Seq<char> {
    Seq::new(bytes.len(), |i: int| bytes[i] as char)
}

/// Whether the byte is one of the ten ASCII digits.
pub open spec fn is_digit(b: u8) -> bool {
    48 <= b <= 57
}

/// Whether every byte is an ASCII digit.
pub open spec fn all_digits(s: Seq<u8>) -> bool {
    forall|i: int| 0 <= i < s.len() ==> is_digit(#[trigger] s[i])
}

/// The number that a row of ASCII digits stands for.
pub open spec fn digits_value(s: Seq<u8>) -> nat
    decreases s.len(),
{
    if s.len() == 0 {
        0
    } else {
        10 * digits_value(s.drop_last()) + (s.last() - 48) as nat
    }
}

/// Reads an unsigned number of at most `max`: an optional `+` and at least one
/// digit, nothing else.
pub open spec fn parse_unsigned(s: Seq<u8>, max: nat) -> Option<nat> {
    let digits = if s.len() > 0 && s[0] == 43 {
        s.skip(1)
    } else {
        s
    };
    if digits.len() > 0 && all_digits(digits) && digits_value(digits) <= max {
        Some(digits_value(digits))
    } else {
        None
    }
}

/// Reads a signed 64-bit number: an optional `+` or `-` and at least one digit,
/// nothing else.
pub open spec fn parse_signed(s: Seq<u8>) -> Option<i64> {
    let digits = if s.len() > 0 && (s[0] == 43 || s[0] == 45) {
        s.skip(1)
    } else {
        s
    };
    let value: int = if s.len() > 0 && s[0] == 45 {
        -(digits_value(digits) as int)
    } else {
        digits_value(digits) as int
    };
    if digits.len() > 0 && all_digits(digits) && i64::MIN <= value <= i64::MAX {
        Some(value as i64)
    } else {
        None
    }
}

/// A longer row of digits stands for no smaller a number.
proof fn lemma_digits_value_grows(s: Seq<u8>, i: int)
    requires
        all_digits(s),
        0 <= i <= s.len(),
    ensures
        digits_value(s.take(i)) <= digits_value(s),
    decreases s.len(),
{
    if i == s.len() {
        assert(s.take(i) =~= s);
    } else {
        assert(s.drop_last().take(i) =~= s.take(i));
        assert(all_digits(s.drop_last()));
        lemma_digits_value_grows(s.drop_last(), i);
    }
}

/// Reads the digits of `s` from `start` on, where they make a number of at most
/// `max`.
fn read_digits(s: &[u8], start: usize, max: u64) -> (value: Option<u64>)
    requires
        start <= s@.len(),
    ensures
        ({
            let digits = s@.skip(start as int);
            if digits.len() > 0 && all_digits(digits) && digits_value(digits) <= max {
                value == Some(digits_value(digits) as u64)
            } else {
                value is None
            }
        }),
{
    if start == s.len() {
        return None;
    }
    let ghost digits = s@.skip(start as int);
    let mut value: u64 = 0;
    let mut i: usize = start;
    while i < s.len()
        invariant
            start <= i <= s@.len(),
            digits == s@.skip(start as int),
            all_digits(digits.take(i - start)),
            value == digits_value(digits.take(i - start)),
            value <= max,
        decreases s@.len() - i,
    {
        let b = s[i];
        assert(digits[i - start] == b);
        if b < 48 || b > 57 {
            assert(!is_digit(digits[i - start]));
            return None;
        }
        let ghost longer = digits.take(i - start + 1);
        proof {
            assert(longer.drop_last() =~= digits.take(i - start));
            assert(longer.last() == b);
            assert forall|k: int| 0 <= k < longer.len() implies is_digit(#[trigger] longer[k]) by {
                if k < i - start {
                    assert(digits.take(i - start)[k] == longer[k]);
                }
            }
        }
        let wide: u128 = value as u128 * 10 + (b - 48) as u128;
        assert(wide == digits_value(longer));
        if wide > max as u128 {
            proof {
                if all_digits(digits) {
                    lemma_digits_value_grows(digits, i - start + 1);
                }
            }
            return None;
        }
        value = wide as u64;
        i = i + 1;
    }
    assert(digits.take(i - start) =~= digits);
    Some(value)
}

/// Reads an unsigned number of at most `max`, as `str::parse` does.
pub fn read_unsigned(s: &[u8], max: u64) -> (value: Option<u64>)
    ensures
        match parse_unsigned(s@, max as nat) {
            Some(n) => value == Some(n as u64),
            None => value is None,
        },
{
    if s.len() > 0 && s[0] == 43 {
        read_digits(s, 1, max)
    } else {
        assert(s@.skip(0) =~= s@);
        read_digits(s, 0, max)
    }
}

/// Reads a signed number, as `str::parse::<i64>` does.
pub fn read_signed(s: &[u8]) -> (value: Option<i64>)
    ensures
        value == parse_signed(s@),
{
    if s.len() > 0 && s[0] == 45 {
        match read_digits(s, 1, 0x8000_0000_0000_0000) {
            Some(n) => {
                if n == 0x8000_0000_0000_0000 {
                    Some(i64::MIN)
                } else {
                    Some(-(n as i64))
                }
            },
            None => None,
        }
    } else if s.len() > 0 && s[0] == 43 {
        match read_digits(s, 1, 0x7fff_ffff_ffff_ffff) {
            Some(n) => Some(n as i64),
            None => None,
        }
    } else {
        assert(s@.skip(0) =~= s@);
        match read_digits(s, 0, 0x7fff_ffff_ffff_ffff) {
            Some(n) => Some(n as i64),
            None => None,
        }
    }
}

/// The decimal text of a number, without leading zeros.
pub open spec fn decimal(n: nat) -> Seq<char>
    decreases n,
{
    if n < 10 {
        seq![(48 + n) as char]
    } else {
        decimal(n / 10).push((48 + n % 10) as char)
    }
}

/// Puts the decimal text of a number at the end of a string.
pub fn push_decimal(text: &mut String, n: u64)
    ensures
        final(text)@ == old(text)@ + decimal(n as nat),
    decreases n,
{
    if n < 10 {
        let c: u8 = 48 + n as u8;
        text.push(c as char);
        assert(text@ =~= old(text)@ + decimal(n as nat));
    } else {
        push_decimal(text, n / 10);
        let c: u8 = 48 + (n % 10) as u8;
        text.push(c as char);
        assert(text@ =~= old(text)@ + decimal(n as nat));
    }
}

/// The decimal text of a number.
pub fn decimal_string(n: u64) -> (text: String)
    ensures
        text@ == decimal(n as nat),
{
    let mut text = String::new();
    push_decimal(&mut text, n);
    assert(text@ =~= decimal(n as nat));
    text
}

/// The text in which every byte stands for the character with its number.
pub fn string_from_latin1(bytes: &[u8]) -> (text: String)
    ensures
        text@ == latin1(bytes@),
{
    let mut text = String::new();
    let mut i: usize = 0;
    while i < bytes.len()
        invariant
            i <= bytes@.len(),
            text@ == latin1(bytes@.take(i as int)),
        decreases bytes@.len() - i,
    {
        let b = bytes[i];
        text.push(b as char);
        i = i + 1;
        assert(text@ =~= latin1(bytes@.take(i as int)));
    }
    assert(bytes@.take(i as int) =~= bytes@);
    text
}

/// The text of the bytes, empty where they are no UTF-8.
pub fn string_or_empty(bytes: Vec<u8>) -> (text: String)
    ensures
        text@ == utf8_or_empty(bytes@),
{
    match string_from_utf8(bytes) {
        Some(text) => text,
        None => String::new(),
    }
}

/// Two strings, one behind the other.
pub fn concat(first: &str, second: &str) -> (text: String)
    ensures
        text@ == first@ + second@,
{
    let mut text = first.to_owned();
    text.append(second);
    text
}

/// Whether one text stands before another by what they hold from a place on: by
/// the first characters that differ, and an end before anything else.
pub open spec fn text_less_from(a: Seq<char>, b: Seq<char>, at: int) -> bool
    decreases a.len() - at,
{
    if at >= b.len() {
        false
    } else if at >= a.len() {
        true
    } else if a[at] != b[at] {
        (a[at] as int) < (b[at] as int)
    } else {
        text_less_from(a, b, at + 1)
    }
}

/// Whether one text stands before another.
pub open spec fn text_less(a: Seq<char>, b: Seq<char>) -> bool {
    text_less_from(a, b, 0)
}

proof fn lemma_text_less_irreflexive(a: Seq<char>, at: int)
    ensures
        !text_less_from(a, a, at),
    decreases a.len() - at,
{
    if at < a.len() {
        lemma_text_less_irreflexive(a, at + 1);
    }
}

proof fn lemma_text_less_transitive(a: Seq<char>, b: Seq<char>, c: Seq<char>, at: int)
    requires
        text_less_from(a, b, at),
        text_less_from(b, c, at),
    ensures
        text_less_from(a, c, at),
    decreases a.len() - at,
{
    if at < a.len() && a[at] == b[at] && b[at] == c[at] {
        lemma_text_less_transitive(a, b, c, at + 1);
    }
}

proof fn lemma_text_less_total(a: Seq<char>, b: Seq<char>, at: int)
    requires
        0 <= at <= a.len(),
        at <= b.len(),
        a.take(at) == b.take(at),
    ensures
        text_less_from(a, b, at) || text_less_from(b, a, at) || a == b,
    decreases a.len() - at,
{
    if at < a.len() && at < b.len() && a[at] == b[at] {
        assert(a.take(at + 1) =~= a.take(at).push(a[at]));
        assert(b.take(at + 1) =~= b.take(at).push(b[at]));
        lemma_text_less_total(a, b, at + 1);
    } else if at == a.len() && at == b.len() {
        assert(a =~= a.take(at));
        assert(b =~= b.take(at));
    }
}

/// The order of texts is a strict total order.
pub proof fn lemma_text_order(a: Seq<char>, b: Seq<char>, c: Seq<char>)
    ensures
        !text_less(a, a),
        text_less(a, b) && text_less(b, c) ==> text_less(a, c),
        text_less(a, b) || text_less(b, a) || a == b,
{
    lemma_text_less_irreflexive(a, 0);
    assert(a.take(0) =~= b.take(0));
    lemma_text_less_total(a, b, 0);
    if text_less(a, b) && text_less(b, c) {
        lemma_text_less_transitive(a, b, c, 0);
    }
}

/// Whether one string stands before another.
pub fn string_less(a: &String, b: &String) -> (less: bool)
    ensures
        less == text_less(a@, b@),
{
    let first = a.as_str();
    let second = b.as_str();
    let first_len: usize = first.unicode_len();
    let second_len: usize = second.unicode_len();
    let mut i: usize = 0;
    while i < first_len && i < second_len
        invariant
            first@ == a@,
            second@ == b@,
            first_len == a@.len(),
            second_len == b@.len(),
            i <= first_len,
            i <= second_len,
            text_less(a@, b@) == text_less_from(a@, b@, i as int),
        decreases first_len - i,
    {
        let x = first.get_char(i);
        let y = second.get_char(i);
        if x != y {
            return (x as u32) < (y as u32);
        }
        i = i + 1;
    }
    i < second_len
}

/// The texts of strings.
pub open spec fn texts(list: Seq<String>) -> Seq<Seq<char>> {
    Seq::new(list.len(), |i: int| list[i]@)
}

/// Each text stands before those behind it, so none occurs twice.
pub open spec fn ascending(list: Seq<Seq<char>>) -> bool {
    forall|i: int, j: int|
        0 <= i < j < list.len() ==> text_less(#[trigger] list[i], #[trigger] list[j])
}

/// Puts a string in its place among strings in order, unless it is there.
fn insert_string(list: &mut Vec<String>, item: String)
    requires
        ascending(texts(old(list)@)),
    ensures
        ascending(texts(final(list)@)),
        forall|t: Seq<char>| #[trigger]
            texts(final(list)@).contains(t) <==> texts(old(list)@).contains(t) || t == item@,
{
    let ghost before = texts(list@);
    let mut i: usize = 0;
    while i < list.len() && string_less(&list[i], &item)
        invariant
            i <= list@.len(),
            before == texts(list@),
            forall|k: int| 0 <= k < i ==> text_less(#[trigger] before[k], item@),
        decreases list@.len() - i,
    {
        assert(before[i as int] == list@[i as int]@);
        i = i + 1;
    }
    if i < list.len() && list[i] == item {
        assert(before[i as int] == item@);
        return ;
    }
    let ghost text = item@;
    proof {
        if i < list@.len() {
            assert(before[i as int] == list@[i as int]@);
            lemma_text_order(before[i as int], text, text);
            assert forall|k: int| i <= k < before.len() implies text_less(
                text,
                #[trigger] before[k],
            ) by {
                if k > i {
                    lemma_text_order(text, before[i as int], before[k]);
                }
            }
        }
    }
    list.insert(i, item);
    proof {
        let after = texts(list@);
        assert(after =~= before.insert(i as int, text));
        assert forall|a: int, b: int| 0 <= a < b < after.len() implies text_less(
            #[trigger] after[a],
            #[trigger] after[b],
        ) by {}
        assert forall|t: Seq<char>| #[trigger]
            after.contains(t) <==> before.contains(t) || t == text by {
            if after.contains(t) {
                let k = choose|k: int| 0 <= k < after.len() && after[k] == t;
                if k < i {
                    assert(before[k] == t);
                } else if k > i {
                    assert(before[k - 1] == t);
                }
            }
            if before.contains(t) {
                let k = choose|k: int| 0 <= k < before.len() && before[k] == t;
                if k < i {
                    assert(after[k] == t);
                } else {
                    assert(after[k + 1] == t);
                }
            }
            if t == text {
                assert(after[i as int] == t);
            }
        }
    }
}

/// The strings in order, each one once.
pub fn sorted_unique(list: Vec<String>) -> (sorted: Vec<String>)
    ensures
        ascending(texts(sorted@)),
        forall|t: Seq<char>| #[trigger] texts(sorted@).contains(t) <==> texts(list@).contains(t),
{
    let mut sorted: Vec<String> = Vec::new();
    let mut i: usize = 0;
    let ghost all = texts(list@);
    while i < list.len()
        invariant
            i <= list@.len(),
            all == texts(list@),
            ascending(texts(sorted@)),
            forall|t: Seq<char>| #[trigger]
                texts(sorted@).contains(t) <==> all.take(i as int).contains(t),
        decreases list@.len() - i,
    {
        let ghost before = texts(sorted@);
        insert_string(&mut sorted, list[i].as_str().to_owned());
        proof {
            assert(all.take(i + 1) =~= all.take(i as int).push(all[i as int]));
            assert forall|t: Seq<char>| #[trigger]
                texts(sorted@).contains(t) <==> all.take(i + 1).contains(t) by {
                let shorter = all.take(i as int);
                let longer = all.take(i + 1);
                if longer.contains(t) {
                    let k = choose|k: int| 0 <= k < longer.len() && longer[k] == t;
                    if k < i {
                        assert(shorter[k] == t);
                    }
                }
                if shorter.contains(t) {
                    let k = choose|k: int| 0 <= k < shorter.len() && shorter[k] == t;
                    assert(longer[k] == t);
                }
                if t == all[i as int] {
                    assert(longer[i as int] == t);
                }
                assert(texts(sorted@).contains(t) <==> before.contains(t) || t == all[i as int]);
            }
        }
        i = i + 1;
    }
    assert(all.take(i as int) =~= all);
    sorted
}

} // verus!
