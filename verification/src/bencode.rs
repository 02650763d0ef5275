//! Bencoded values and the metainfo of a torrent.
use vstd::prelude::*;

use crate::dictionary::{
    Dictionary, has_key, is_first, lemma_first_is_unique, lemma_put, lookup, put,
};
use crate::hashing::{MAX_HASHED_LEN, hex_of, sha1_digest, sha1_hexdigest, sha1_of};
use crate::scan::{
    chunks_of_20, contents, copy_bytes, copy_range, find_byte, find_from, lemma_find_from,
    lemma_find_from_prefix, lemma_find_from_shift, shifted, split_chunks,
};
use crate::text::{
    concat, parse_signed, parse_unsigned, read_signed, read_unsigned, string_or_empty, texts, utf8_or_empty,
};

verus! {

pub const D_CHAR: u8 = 100;

pub const E_CHAR: u8 = 101;

pub const I_CHAR: u8 = 105;

pub const L_CHAR: u8 = 108;

pub const SEMICOLON_CHAR: u8 = 58;

/// What a bencoded value means.
pub enum BValue {
    Int(i64),
    List(Seq<BValue>),
    /// A byte string, with its text where it is UTF-8 and no text where it is not.
    Text { text: Seq<char>, bytes: Seq<u8> },
    /// The entries, and the SHA-1 digest of the bytes from the `d` to the `e`.
    Dictionary { entries: Seq<(Seq<char>, BValue)>, hash: Seq<u8>, hash_str: Seq<char> },
}

/// Reads a byte string at `pos`: its length in decimal, a colon, the bytes.
pub open spec fn text_at(data: Seq<u8>, pos: int) -> Option<(BValue, int)> {
    match find_from(data, pos, SEMICOLON_CHAR) {
        Some(colon) => match parse_unsigned(data.subrange(pos, colon), usize::MAX as nat) {
            Some(n) => if colon + 1 + n <= data.len() {
                let bytes = data.subrange(colon + 1, colon + 1 + n);
                Some((BValue::Text { text: utf8_or_empty(bytes), bytes }, colon + 1 + n))
            } else {
                None
            },
            None => None,
        },
        None => None,
    }
}

/// Reads a number at `pos`, behind its `i`: decimal, closed by an `e`.
pub open spec fn int_at(data: Seq<u8>, pos: int) -> Option<(BValue, int)> {
    match find_from(data, pos, E_CHAR) {
        Some(end) => match parse_signed(data.subrange(pos, end)) {
            Some(n) => Some((BValue::Int(n), end + 1)),
            None => None,
        },
        None => None,
    }
}

/// Reads any value at `pos`.
pub open spec fn value_at(data: Seq<u8>, pos: int) -> Option<(BValue, int)>
    decreases data.len() - pos, 0int,
{
    if pos < 0 || pos >= data.len() {
        None
    } else if data[pos] == D_CHAR {
        match entries_at(data, pos + 1, Seq::empty()) {
            Some((entries, end)) => {
                let hash = sha1_of(data.subrange(pos, end));
                Some((BValue::Dictionary { entries, hash, hash_str: hex_of(hash) }, end))
            },
            None => None,
        }
    } else if data[pos] == L_CHAR {
        match items_at(data, pos + 1, Seq::empty()) {
            Some((items, end)) => Some((BValue::List(items), end)),
            None => None,
        }
    } else if data[pos] == I_CHAR {
        int_at(data, pos + 1)
    } else {
        text_at(data, pos)
    }
}

/// Reads values from `pos` up to the closing `e`, behind those already read.
pub open spec fn items_at(data: Seq<u8>, pos: int, read: Seq<BValue>) -> Option<(Seq<BValue>, int)>
    decreases data.len() - pos, 1int,
{
    if pos < 0 || pos >= data.len() {
        None
    } else if data[pos] == E_CHAR {
        Some((read, pos + 1))
    } else {
        match value_at(data, pos) {
            Some((value, end)) => if pos < end <= data.len() {
                items_at(data, end, read.push(value))
            } else {
                None
            },
            None => None,
        }
    }
}

/// Reads keys, each with its value, from `pos` up to the closing `e`; a key that
/// comes again takes the later value.
pub open spec fn entries_at(data: Seq<u8>, pos: int, read: Seq<(Seq<char>, BValue)>) -> Option<
    (Seq<(Seq<char>, BValue)>, int),
>
    decreases data.len() - pos, 1int,
{
    if pos < 0 || pos >= data.len() {
        None
    } else if data[pos] == E_CHAR {
        Some((read, pos + 1))
    } else {
        match text_at(data, pos) {
            Some((BValue::Text { text, bytes }, middle)) => if pos < middle <= data.len() {
                match value_at(data, middle) {
                    Some((value, end)) => if middle < end <= data.len() {
                        entries_at(data, end, put(read, text, value))
                    } else {
                        None
                    },
                    None => None,
                }
            } else {
                None
            },
            _ => None,
        }
    }
}

/// A byte string ends behind where it begins, and within the data.
pub proof fn lemma_text_end(data: Seq<u8>, pos: int)
    requires
        0 <= pos,
    ensures
        text_at(data, pos) matches Some((value, end)) ==> pos < end <= data.len() && value is Text,
{
    lemma_find_from(data, pos, SEMICOLON_CHAR);
}

/// A value ends behind where it begins, and within the data.
pub proof fn lemma_value_end(data: Seq<u8>, pos: int)
    requires
        0 <= pos,
    ensures
        value_at(data, pos) matches Some((value, end)) ==> pos < end <= data.len(),
    decreases data.len() - pos, 0int,
{
    if pos < data.len() {
        lemma_find_from(data, pos + 1, E_CHAR);
        lemma_text_end(data, pos);
        lemma_items_end(data, pos + 1, Seq::empty());
        lemma_entries_end(data, pos + 1, Seq::empty());
    }
}

/// A list ends behind where it begins, and within the data.
pub proof fn lemma_items_end(data: Seq<u8>, pos: int, read: Seq<BValue>)
    requires
        0 <= pos,
    ensures
        items_at(data, pos, read) matches Some((items, end)) ==> pos < end <= data.len(),
    decreases data.len() - pos, 1int,
{
    if pos < data.len() && data[pos] != E_CHAR {
        if let Some((value, end)) = value_at(data, pos) {
            if pos < end <= data.len() {
                lemma_items_end(data, end, read.push(value));
            }
        }
    }
}

/// The entries of a dictionary end behind where they begin, and within the data.
pub proof fn lemma_entries_end(data: Seq<u8>, pos: int, read: Seq<(Seq<char>, BValue)>)
    requires
        0 <= pos,
    ensures
        entries_at(data, pos, read) matches Some((entries, end)) ==> pos < end <= data.len(),
    decreases data.len() - pos, 1int,
{
    if pos < data.len() && data[pos] != E_CHAR {
        if let Some((BValue::Text { text, bytes }, middle)) = text_at(data, pos) {
            if pos < middle <= data.len() {
                if let Some((value, end)) = value_at(data, middle) {
                    if middle < end <= data.len() {
                        lemma_entries_end(data, end, put(read, text, value));
                    }
                }
            }
        }
    }
}

/// What is read of a byte string does not depend on what stands behind it.
pub proof fn lemma_text_prefix(data: Seq<u8>, rest: Seq<u8>, pos: int)
    requires
        0 <= pos,
    ensures
        text_at(data, pos) is Some ==> text_at(data + rest, pos) == text_at(data, pos),
{
    lemma_find_from_prefix(data, rest, pos, SEMICOLON_CHAR);
    lemma_find_from(data, pos, SEMICOLON_CHAR);
    if let Some(colon) = find_from(data, pos, SEMICOLON_CHAR) {
        assert((data + rest).subrange(pos, colon) =~= data.subrange(pos, colon));
        if let Some(n) = parse_unsigned(data.subrange(pos, colon), usize::MAX as nat) {
            if colon + 1 + n <= data.len() {
                assert((data + rest).subrange(colon + 1, colon + 1 + n) =~= data.subrange(
                    colon + 1,
                    colon + 1 + n,
                ));
            }
        }
    }
}

/// A value that stands at some place of the data stands there still when bytes
/// are put behind the data: what is read never depends on what follows.
pub proof fn lemma_value_prefix(data: Seq<u8>, rest: Seq<u8>, pos: int)
    requires
        0 <= pos,
    ensures
        value_at(data, pos) is Some ==> value_at(data + rest, pos) == value_at(data, pos),
    decreases data.len() - pos, 0int,
{
    if pos < data.len() {
        lemma_items_prefix(data, rest, pos + 1, Seq::empty());
        lemma_entries_prefix(data, rest, pos + 1, Seq::empty());
        lemma_entries_end(data, pos + 1, Seq::empty());
        lemma_text_prefix(data, rest, pos);
        lemma_find_from_prefix(data, rest, pos + 1, E_CHAR);
        lemma_find_from(data, pos + 1, E_CHAR);
        if let Some(end) = find_from(data, pos + 1, E_CHAR) {
            assert((data + rest).subrange(pos + 1, end) =~= data.subrange(pos + 1, end));
        }
        if let Some((entries, end)) = entries_at(data, pos + 1, Seq::empty()) {
            assert((data + rest).subrange(pos, end) =~= data.subrange(pos, end));
        }
    }
}

proof fn lemma_items_prefix(data: Seq<u8>, rest: Seq<u8>, pos: int, read: Seq<BValue>)
    requires
        0 <= pos,
    ensures
        items_at(data, pos, read) is Some ==> items_at(data + rest, pos, read) == items_at(
            data,
            pos,
            read,
        ),
    decreases data.len() - pos, 1int,
{
    if pos < data.len() && data[pos] != E_CHAR {
        lemma_value_prefix(data, rest, pos);
        if let Some((value, end)) = value_at(data, pos) {
            if pos < end <= data.len() {
                lemma_items_prefix(data, rest, end, read.push(value));
            }
        }
    }
}

proof fn lemma_entries_prefix(
    data: Seq<u8>,
    rest: Seq<u8>,
    pos: int,
    read: Seq<(Seq<char>, BValue)>,
)
    requires
        0 <= pos,
    ensures
        entries_at(data, pos, read) is Some ==> entries_at(data + rest, pos, read) == entries_at(
            data,
            pos,
            read,
        ),
    decreases data.len() - pos, 1int,
{
    if pos < data.len() && data[pos] != E_CHAR {
        lemma_text_prefix(data, rest, pos);
        if let Some((BValue::Text { text, bytes }, middle)) = text_at(data, pos) {
            if pos < middle <= data.len() {
                lemma_value_prefix(data, rest, middle);
                if let Some((value, end)) = value_at(data, middle) {
                    if middle < end <= data.len() {
                        lemma_entries_prefix(data, rest, end, put(read, text, value));
                    }
                }
            }
        }
    }
}

/// A byte string reads alike wherever it stands.
pub proof fn lemma_text_anywhere(before: Seq<u8>, data: Seq<u8>, pos: int)
    requires
        0 <= pos,
    ensures
        text_at(before + data, before.len() + pos) == shifted(text_at(data, pos), before.len() as int),
{
    let all = before + data;
    let by = before.len() as int;
    lemma_find_from_shift(before, data, pos, SEMICOLON_CHAR);
    lemma_find_from(data, pos, SEMICOLON_CHAR);
    if let Some(colon) = find_from(data, pos, SEMICOLON_CHAR) {
        assert(all.subrange(by + pos, by + colon) =~= data.subrange(pos, colon));
        if let Some(n) = parse_unsigned(data.subrange(pos, colon), usize::MAX as nat) {
            if colon + 1 + n <= data.len() {
                assert(all.subrange(by + colon + 1, by + colon + 1 + n) =~= data.subrange(
                    colon + 1,
                    colon + 1 + n,
                ));
            }
        }
    }
}

proof fn lemma_int_anywhere(before: Seq<u8>, data: Seq<u8>, pos: int)
    requires
        0 <= pos,
    ensures
        int_at(before + data, before.len() + pos) == shifted(int_at(data, pos), before.len() as int),
{
    let by = before.len() as int;
    lemma_find_from_shift(before, data, pos, E_CHAR);
    lemma_find_from(data, pos, E_CHAR);
    if let Some(end) = find_from(data, pos, E_CHAR) {
        assert((before + data).subrange(by + pos, by + end) =~= data.subrange(pos, end));
    }
}

/// A value reads alike wherever it stands: bytes before it move its end, and change
/// nothing else.
pub proof fn lemma_value_anywhere(before: Seq<u8>, data: Seq<u8>, pos: int)
    requires
        0 <= pos,
    ensures
        value_at(before + data, before.len() + pos) == shifted(
            value_at(data, pos),
            before.len() as int,
        ),
    decreases data.len() - pos, 0int,
{
    let all = before + data;
    let by = before.len() as int;
    if pos < data.len() {
        assert(all[by + pos] == data[pos]);
        if data[pos] == D_CHAR {
            lemma_entries_anywhere(before, data, pos + 1, Seq::empty());
            lemma_entries_end(data, pos + 1, Seq::empty());
            if let Some((entries, end)) = entries_at(data, pos + 1, Seq::empty()) {
                assert(all.subrange(by + pos, by + end) =~= data.subrange(pos, end));
            }
        } else if data[pos] == L_CHAR {
            lemma_items_anywhere(before, data, pos + 1, Seq::empty());
        } else if data[pos] == I_CHAR {
            lemma_int_anywhere(before, data, pos + 1);
        } else {
            lemma_text_anywhere(before, data, pos);
        }
    }
}

proof fn lemma_items_anywhere(before: Seq<u8>, data: Seq<u8>, pos: int, read: Seq<BValue>)
    requires
        0 <= pos,
    ensures
        items_at(before + data, before.len() + pos, read) == shifted(
            items_at(data, pos, read),
            before.len() as int,
        ),
    decreases data.len() - pos, 1int,
{
    if pos < data.len() && data[pos] != E_CHAR {
        lemma_value_anywhere(before, data, pos);
        if let Some((value, end)) = value_at(data, pos) {
            if pos < end <= data.len() {
                lemma_items_anywhere(before, data, end, read.push(value));
            }
        }
    }
}

proof fn lemma_entries_anywhere(
    before: Seq<u8>,
    data: Seq<u8>,
    pos: int,
    read: Seq<(Seq<char>, BValue)>,
)
    requires
        0 <= pos,
    ensures
        entries_at(before + data, before.len() + pos, read) == shifted(
            entries_at(data, pos, read),
            before.len() as int,
        ),
    decreases data.len() - pos, 1int,
{
    if pos < data.len() && data[pos] != E_CHAR {
        lemma_text_anywhere(before, data, pos);
        if let Some((BValue::Text { text, bytes }, middle)) = text_at(data, pos) {
            if pos < middle <= data.len() {
                lemma_value_anywhere(before, data, middle);
                if let Some((value, end)) = value_at(data, middle) {
                    if middle < end <= data.len() {
                        lemma_entries_anywhere(before, data, end, put(read, text, value));
                    }
                }
            }
        }
    }
}

/// A place in a byte string from which values are read.
pub struct Cursor<'a> {
    data: &'a [u8],
    position: usize,
}

impl<'a> Cursor<'a> {
    /// The bytes that are read.
    pub closed spec fn bytes(self) -> Seq<u8> {
        self.data@
    }

    /// Where the next value begins.
    pub closed spec fn at(self) -> int {
        self.position as int
    }

    /// A cursor at the beginning of the data.
    pub fn new(data: &'a [u8]) -> (cursor: Cursor<'a>)
        ensures
            cursor.bytes() == data@,
            cursor.at() == 0,
    {
        Cursor { data, position: 0 }
    }

    /// Where the next value begins.
    pub fn position(&self) -> (position: usize)
        ensures
            position == self.at(),
    {
        self.position
    }

    /// Moves the cursor.
    pub fn set_position(&mut self, position: usize)
        ensures
            final(self).bytes() == old(self).bytes(),
            final(self).at() == position,
    {
        self.position = position;
    }
}

/// A bencoded value.
#[allow(inconsistent_fields)]
#[derive(Debug)]
pub enum BEncodeType {
    Int { value: i64 },
    List { value: Vec<BEncodeType> },
    String { value: String, value_bytes: Vec<u8> },
    Dictionary {
        value: Dictionary<BEncodeType>,
        value_hash: [u8; 20],
        value_hash_str: String,
    },
}

/// What each value of a list means.
pub open spec fn models(list: Seq<BEncodeType>) -> Seq<BValue>
    decreases list,
{
    if list.len() == 0 {
        Seq::empty()
    } else {
        models(list.drop_last()).push(list.last().model())
    }
}

/// Every value of a list is well formed.
pub open spec fn all_wf(list: Seq<BEncodeType>) -> bool
    decreases list,
{
    list.len() == 0 || (all_wf(list.drop_last()) && list.last().wf())
}

/// What the entries of a dictionary mean.
pub open spec fn entry_models(dictionary: Dictionary<BEncodeType>) -> Seq<(Seq<char>, BValue)>
    decreases dictionary,
{
    let values = models(dictionary.values@);
    Seq::new(dictionary.keys@.len(), |i: int| (dictionary.keys@[i]@, values[i]))
}

impl BEncodeType {
    /// What the value means.
    pub open spec fn model(self) -> BValue
        decreases self,
    {
        match self {
            BEncodeType::Int { value } => BValue::Int(value),
            BEncodeType::List { value } => BValue::List(models(value@)),
            BEncodeType::String { value, value_bytes } => BValue::Text {
                text: value@,
                bytes: value_bytes@,
            },
            BEncodeType::Dictionary { value, value_hash, value_hash_str } => BValue::Dictionary {
                entries: entry_models(value),
                hash: value_hash@,
                hash_str: value_hash_str@,
            },
        }
    }

    /// No dictionary in the value holds a key twice.
    pub open spec fn wf(self) -> bool
        decreases self,
    {
        match self {
            BEncodeType::Int { .. } => true,
            BEncodeType::List { value } => all_wf(value@),
            BEncodeType::String { .. } => true,
            BEncodeType::Dictionary { value, .. } => value.wf() && all_wf(value.values@),
        }
    }
}

/// A list has as many meanings as values, each that of its value.
proof fn lemma_models(list: Seq<BEncodeType>)
    ensures
        models(list).len() == list.len(),
        forall|i: int| 0 <= i < list.len() ==> #[trigger] models(list)[i] == list[i].model(),
    decreases list.len(),
{
    if list.len() > 0 {
        lemma_models(list.drop_last());
        assert forall|i: int| 0 <= i < list.len() implies #[trigger] models(list)[i]
            == list[i].model() by {
            if i < list.len() - 1 {
                assert(list.drop_last()[i] == list[i]);
            }
        }
    }
}

/// A list is well formed where each of its values is.
proof fn lemma_all_wf(list: Seq<BEncodeType>)
    ensures
        all_wf(list) <==> forall|i: int| 0 <= i < list.len() ==> (#[trigger] list[i]).wf(),
    decreases list.len(),
{
    if list.len() > 0 {
        lemma_all_wf(list.drop_last());
        assert forall|i: int| 0 <= i < list.len() && all_wf(list) implies (#[trigger] list[i]).wf() by {
            if i < list.len() - 1 {
                assert(list.drop_last()[i] == list[i]);
            }
        }
        if forall|i: int| 0 <= i < list.len() ==> (#[trigger] list[i]).wf() {
            assert forall|i: int| 0 <= i < list.drop_last().len() implies (
            #[trigger] list.drop_last()[i]).wf() by {
                assert(list[i].wf());
            }
            assert(list[list.len() - 1].wf());
        }
    }
}

/// What pushing a value does to the meaning of a list.
proof fn lemma_models_push(list: Seq<BEncodeType>, value: BEncodeType)
    ensures
        models(list.push(value)) == models(list).push(value.model()),
        all_wf(list.push(value)) == (all_wf(list) && value.wf()),
{
    assert(list.push(value).drop_last() =~= list);
}

/// The keys of a dictionary's meaning are its keys: looking a key up there
/// gives the meaning of the value under the key.
proof fn lemma_entry_models(dictionary: Dictionary<BEncodeType>, key: Seq<char>)
    requires
        dictionary.wf(),
    ensures
        entry_models(dictionary).len() == dictionary.pairs().len(),
        forall|i: int| is_first(dictionary.pairs(), key, i) == is_first(entry_models(dictionary), key, i),
        has_key(dictionary.pairs(), key) == has_key(entry_models(dictionary), key),
        lookup(entry_models(dictionary), key) == (match lookup(dictionary.pairs(), key) {
            Some(value) => Some(value.model()),
            None => None,
        }),
{
    let pairs = dictionary.pairs();
    let entries = entry_models(dictionary);
    lemma_models(dictionary.values@);
    assert forall|i: int| is_first(pairs, key, i) == is_first(entries, key, i) by {
        if is_first(pairs, key, i) {
            assert forall|j: int| 0 <= j < i implies (#[trigger] entries[j]).0 != key by {
                assert(pairs[j].0 != key);
            }
        }
        if is_first(entries, key, i) {
            assert forall|j: int| 0 <= j < i implies (#[trigger] pairs[j]).0 != key by {
                assert(entries[j].0 != key);
            }
        }
    }
    if has_key(pairs, key) {
        let i = choose|i: int| is_first(pairs, key, i);
        assert(is_first(entries, key, i));
        lemma_first_is_unique(entries, key, i, choose|j: int| is_first(entries, key, j));
    }
    if has_key(entries, key) {
        let i = choose|i: int| is_first(entries, key, i);
        assert(is_first(pairs, key, i));
    }
}

/// Putting a value into a dictionary puts its meaning into the dictionary's.
proof fn lemma_entry_models_put(
    before: Dictionary<BEncodeType>,
    after: Dictionary<BEncodeType>,
    key: Seq<char>,
    value: BEncodeType,
)
    requires
        before.wf(),
        after.wf(),
        after.pairs() == put(before.pairs(), key, value),
    ensures
        entry_models(after) == put(entry_models(before), key, value.model()),
        all_wf(before.values@) && value.wf() ==> all_wf(after.values@),
{
    lemma_entry_models(before, key);
    lemma_models(before.values@);
    lemma_models(after.values@);
    lemma_all_wf(before.values@);
    lemma_all_wf(after.values@);
    let at = choose|i: int| is_first(before.pairs(), key, i);
    if has_key(before.pairs(), key) {
        lemma_first_is_unique(
            entry_models(before),
            key,
            at,
            choose|j: int| is_first(entry_models(before), key, j),
        );
    }
    assert forall|i: int| 0 <= i < after.pairs().len() implies entry_models(after)[i] == put(
        entry_models(before),
        key,
        value.model(),
    )[i] by {
        assert(after.pairs()[i].0 == after.keys@[i]@);
        assert(after.pairs()[i].1 == after.values@[i]);
        if i < before.pairs().len() {
            assert(before.pairs()[i].0 == before.keys@[i]@);
            assert(before.pairs()[i].1 == before.values@[i]);
        }
    }
    assert(entry_models(after) =~= put(entry_models(before), key, value.model()));
    if all_wf(before.values@) && value.wf() {
        assert forall|i: int| 0 <= i < after.values@.len() implies (#[trigger] after.values@[i]).wf() by {
            assert(after.pairs()[i].1 == after.values@[i]);
            if i < before.pairs().len() {
                assert(before.pairs()[i].1 == before.values@[i]);
            }
        }
    }
}

impl BEncodeType {
    /// Reads a value at the cursor, or nothing where none stands there.
    pub fn try_parse_type(cursor: &mut Cursor) -> (value: Option<BEncodeType>)
        requires
            old(cursor).bytes().len() <= MAX_HASHED_LEN,
        ensures
            final(cursor).bytes() == old(cursor).bytes(),
            match value {
                Some(v) => v.wf() && value_at(old(cursor).bytes(), old(cursor).at()) == Some(
                    (v.model(), final(cursor).at()),
                ),
                None => value_at(old(cursor).bytes(), old(cursor).at()) is None,
            },
        decreases old(cursor).bytes().len() - old(cursor).at(), 0int,
    {
        if cursor.position >= cursor.data.len() {
            return None;
        }
        let byte = cursor.data[cursor.position];
        if byte == D_CHAR {
            cursor.position = cursor.position + 1;
            BEncodeType::dictionary(cursor)
        } else if byte == L_CHAR {
            cursor.position = cursor.position + 1;
            BEncodeType::list(cursor)
        } else if byte == I_CHAR {
            cursor.position = cursor.position + 1;
            BEncodeType::integer(cursor)
        } else {
            BEncodeType::string(cursor)
        }
    }

    /// Reads the value that stands at the cursor.
    pub fn parse_type(cursor: &mut Cursor) -> (value: BEncodeType)
        requires
            old(cursor).bytes().len() <= MAX_HASHED_LEN,
            value_at(old(cursor).bytes(), old(cursor).at()) is Some,
        ensures
            final(cursor).bytes() == old(cursor).bytes(),
            value.wf(),
            value_at(old(cursor).bytes(), old(cursor).at()) == Some(
                (value.model(), final(cursor).at()),
            ),
    {
        match BEncodeType::try_parse_type(cursor) {
            Some(value) => value,
            None => BEncodeType::Int { value: 0 },
        }
    }

    fn string(cursor: &mut Cursor) -> (value: Option<BEncodeType>)
        ensures
            final(cursor).bytes() == old(cursor).bytes(),
            match value {
                Some(v) => v.wf() && v is String && text_at(old(cursor).bytes(), old(cursor).at())
                    == Some((v.model(), final(cursor).at())),
                None => text_at(old(cursor).bytes(), old(cursor).at()) is None,
            },
    {
        let start: usize = cursor.position;
        let colon: usize = match find_byte(cursor.data, start, SEMICOLON_CHAR) {
            Some(at) => at,
            None => return None,
        };
        let digits = copy_range(cursor.data, start, colon);
        let length: usize = match read_unsigned(digits.as_slice(), usize::MAX as u64) {
            Some(n) => n as usize,
            None => return None,
        };
        if length > cursor.data.len() - (colon + 1) {
            return None;
        }
        let value_bytes = copy_range(cursor.data, colon + 1, colon + 1 + length);
        cursor.position = colon + 1 + length;
        let value = string_or_empty(value_bytes.clone());
        Some(BEncodeType::String { value, value_bytes })
    }

    fn integer(cursor: &mut Cursor) -> (value: Option<BEncodeType>)
        ensures
            final(cursor).bytes() == old(cursor).bytes(),
            match value {
                Some(v) => v.wf() && int_at(old(cursor).bytes(), old(cursor).at()) == Some(
                    (v.model(), final(cursor).at()),
                ),
                None => int_at(old(cursor).bytes(), old(cursor).at()) is None,
            },
    {
        let start: usize = cursor.position;
        let end: usize = match find_byte(cursor.data, start, E_CHAR) {
            Some(at) => at,
            None => return None,
        };
        let digits = copy_range(cursor.data, start, end);
        match read_signed(digits.as_slice()) {
            Some(value) => {
                cursor.position = end + 1;
                Some(BEncodeType::Int { value })
            },
            None => None,
        }
    }

    fn list(cursor: &mut Cursor) -> (value: Option<BEncodeType>)
        requires
            old(cursor).bytes().len() <= MAX_HASHED_LEN,
        ensures
            final(cursor).bytes() == old(cursor).bytes(),
            match value {
                Some(v) => v.wf() && (match items_at(
                    old(cursor).bytes(),
                    old(cursor).at(),
                    Seq::empty(),
                ) {
                    Some((items, end)) => v.model() == BValue::List(items) && final(cursor).at()
                        == end,
                    None => false,
                }),
                None => items_at(old(cursor).bytes(), old(cursor).at(), Seq::empty()) is None,
            },
        decreases old(cursor).bytes().len() - old(cursor).at(), 1int,
    {
        let ghost data = cursor.data@;
        let ghost start = cursor.position as int;
        let mut value: Vec<BEncodeType> = Vec::new();
        assert(models(value@) =~= Seq::empty());
        loop
            invariant
                data == cursor.data@,
                old(cursor).bytes() == data,
                old(cursor).at() == start,
                data.len() <= MAX_HASHED_LEN,
                start <= cursor.position,
                all_wf(value@),
                items_at(data, start, Seq::empty()) == items_at(
                    data,
                    cursor.position as int,
                    models(value@),
                ),
            decreases data.len() - cursor.position,
        {
            if cursor.position >= cursor.data.len() {
                return None;
            }
            if cursor.data[cursor.position] == E_CHAR {
                cursor.position = cursor.position + 1;
                return Some(BEncodeType::List { value });
            }
            proof {
                lemma_value_end(data, cursor.position as int);
            }
            match BEncodeType::try_parse_type(cursor) {
                Some(item) => {
                    proof {
                        lemma_models_push(value@, item);
                    }
                    value.push(item);
                },
                None => return None,
            }
        }
    }

    fn dictionary(cursor: &mut Cursor) -> (value: Option<BEncodeType>)
        requires
            old(cursor).bytes().len() <= MAX_HASHED_LEN,
            0 < old(cursor).at() <= old(cursor).bytes().len(),
        ensures
            final(cursor).bytes() == old(cursor).bytes(),
            match value {
                Some(v) => v.wf() && (match entries_at(
                    old(cursor).bytes(),
                    old(cursor).at(),
                    Seq::empty(),
                ) {
                    Some((entries, end)) => {
                        let hash = sha1_of(old(cursor).bytes().subrange(old(cursor).at() - 1, end));
                        v.model() == (BValue::Dictionary { entries, hash, hash_str: hex_of(hash) })
                            && final(cursor).at() == end
                    },
                    None => false,
                }),
                None => entries_at(old(cursor).bytes(), old(cursor).at(), Seq::empty()) is None,
            },
        decreases old(cursor).bytes().len() - old(cursor).at(), 1int,
    {
        let ghost data = cursor.data@;
        let start: usize = cursor.position;
        let mut entries: Dictionary<BEncodeType> = Dictionary::new();
        assert(entry_models(entries) =~= Seq::empty()) by {
            assert(entries.pairs().len() == 0);
        }
        loop
            invariant
                data == cursor.data@,
                old(cursor).bytes() == data,
                old(cursor).at() == start,
                data.len() <= MAX_HASHED_LEN,
                0 < start <= cursor.position <= data.len(),
                entries.wf(),
                all_wf(entries.values@),
                entries_at(data, start as int, Seq::empty()) == entries_at(
                    data,
                    cursor.position as int,
                    entry_models(entries),
                ),
            decreases data.len() - cursor.position,
        {
            if cursor.position >= cursor.data.len() {
                return None;
            }
            if cursor.data[cursor.position] == E_CHAR {
                cursor.position = cursor.position + 1;
                let hashed = copy_range(cursor.data, start - 1, cursor.position);
                let value_hash = sha1_digest(hashed.as_slice());
                let value_hash_str = sha1_hexdigest(hashed.as_slice());
                return Some(BEncodeType::Dictionary { value: entries, value_hash, value_hash_str });
            }
            proof {
                lemma_text_end(data, cursor.position as int);
            }
            let key = match BEncodeType::string(cursor) {
                Some(key) => key.as_string(),
                None => return None,
            };
            proof {
                lemma_value_end(data, cursor.position as int);
            }
            match BEncodeType::try_parse_type(cursor) {
                Some(item) => {
                    let ghost before = entries;
                    let ghost key_text = key@;
                    entries.insert(key, item);
                    proof {
                        lemma_entry_models_put(before, entries, key_text, item);
                    }
                },
                None => return None,
            }
        }
    }

    /// The entries of a dictionary; of any other value, none.
    pub fn as_dictionary(&self) -> (entries: Dictionary<BEncodeType>)
        requires
            self.wf(),
        ensures
            entries.wf(),
            all_wf(entries.values@),
            entry_models(entries) == entries_of(self.model()),
    {
        match self {
            BEncodeType::Dictionary { value, .. } => clone_entries(value),
            _ => {
                let entries: Dictionary<BEncodeType> = Dictionary::new();
                assert(entries.pairs().len() == 0);
                assert(entry_models(entries) =~= Seq::empty());
                entries
            },
        }
    }

    /// The digest of a dictionary's bytes.
    pub fn as_dictionary_hash(&self) -> (hash: [u8; 20])
        requires
            self.model() is Dictionary,
        ensures
            self.model() matches BValue::Dictionary { hash: expected, .. } && hash@ == expected,
    {
        match self {
            BEncodeType::Dictionary { value_hash, .. } => *value_hash,
            _ => [0; 20],
        }
    }

    /// The digest of a dictionary's bytes in hexadecimal; of any other value,
    /// no text.
    pub fn as_dictionary_hash_str(&self) -> (text: String)
        ensures
            text@ == hash_str_of(self.model()),
    {
        match self {
            BEncodeType::Dictionary { value_hash_str, .. } => value_hash_str.as_str().to_owned(),
            _ => String::new(),
        }
    }

    /// The text of a string; of any other value, none.
    pub fn as_string(&self) -> (text: String)
        ensures
            text@ == text_of(self.model()),
    {
        match self {
            BEncodeType::String { value, .. } => value.as_str().to_owned(),
            _ => String::new(),
        }
    }

    /// The bytes of a string; of any other value, none.
    pub fn as_string_bytes(&self) -> (bytes: Vec<u8>)
        ensures
            bytes@ == bytes_of(self.model()),
    {
        match self {
            BEncodeType::String { value_bytes, .. } => copy_bytes(value_bytes.as_slice()),
            _ => Vec::new(),
        }
    }

    /// The items of a list; of any other value, none.
    pub fn as_list(&self) -> (items: Vec<BEncodeType>)
        ensures
            models(items@) == items_of(self.model()),
            self.wf() ==> all_wf(items@),
    {
        match self {
            BEncodeType::List { value } => clone_list(value),
            _ => {
                let items: Vec<BEncodeType> = Vec::new();
                assert(models(items@) =~= Seq::empty());
                items
            },
        }
    }

    /// The number; of any other value, zero.
    pub fn as_integer(&self) -> (value: i64)
        ensures
            value == int_of(self.model()),
    {
        match self {
            BEncodeType::Int { value } => *value,
            _ => 0,
        }
    }

    /// The value under a key of a dictionary.
    fn entry(&self, key: &str) -> (value: Option<&BEncodeType>)
        requires
            self.wf(),
        ensures
            match value {
                Some(v) => v.wf() && lookup(entries_of(self.model()), key@) == Some(v.model()),
                None => lookup(entries_of(self.model()), key@) is None,
            },
    {
        match self {
            BEncodeType::Dictionary { value, .. } => {
                proof {
                    lemma_entry_models(*value, key@);
                    lemma_all_wf(value.values@);
                }
                let found = value.get(key);
                proof {
                    if has_key(value.pairs(), key@) {
                        let i = choose|i: int| is_first(value.pairs(), key@, i);
                        assert(value.pairs()[i].1 == value.values@[i]);
                    }
                }
                found
            },
            _ => None,
        }
    }
}

/// The text of a string; of any other value, none.
pub open spec fn text_of(value: BValue) -> Seq<char> {
    match value {
        BValue::Text { text, .. } => text,
        _ => Seq::empty(),
    }
}

/// The bytes of a string; of any other value, none.
pub open spec fn bytes_of(value: BValue) -> Seq<u8> {
    match value {
        BValue::Text { bytes, .. } => bytes,
        _ => Seq::empty(),
    }
}

/// The items of a list; of any other value, none.
pub open spec fn items_of(value: BValue) -> Seq<BValue> {
    match value {
        BValue::List(items) => items,
        _ => Seq::empty(),
    }
}

/// The number; of any other value, zero.
pub open spec fn int_of(value: BValue) -> i64 {
    match value {
        BValue::Int(n) => n,
        _ => 0,
    }
}

/// The entries of a dictionary; of any other value, none.
pub open spec fn entries_of(value: BValue) -> Seq<(Seq<char>, BValue)> {
    match value {
        BValue::Dictionary { entries, .. } => entries,
        _ => Seq::empty(),
    }
}

/// The digest of a dictionary; of any other value, nothing.
pub open spec fn hash_of(value: BValue) -> Seq<u8> {
    match value {
        BValue::Dictionary { hash, .. } => hash,
        _ => Seq::empty(),
    }
}

/// The digest of a dictionary as text; of any other value, nothing.
pub open spec fn hash_str_of(value: BValue) -> Seq<char> {
    match value {
        BValue::Dictionary { hash_str, .. } => hash_str,
        _ => Seq::empty(),
    }
}

impl Clone for BEncodeType {
    fn clone(&self) -> (copy: BEncodeType)
        ensures
            copy.model() == self.model(),
            self.wf() ==> copy.wf(),
        decreases self, 0int,
    {
        match self {
            BEncodeType::Int { value } => BEncodeType::Int { value: *value },
            BEncodeType::List { value } => BEncodeType::List { value: clone_list(value) },
            BEncodeType::String { value, value_bytes } => BEncodeType::String {
                value: value.as_str().to_owned(),
                value_bytes: copy_bytes(value_bytes.as_slice()),
            },
            BEncodeType::Dictionary { value, value_hash, value_hash_str } => {
                let entries = clone_entries(value);
                BEncodeType::Dictionary {
                    value: entries,
                    value_hash: *value_hash,
                    value_hash_str: value_hash_str.as_str().to_owned(),
                }
            },
        }
    }
}

/// A copy of a list of values.
fn clone_list(list: &Vec<BEncodeType>) -> (copy: Vec<BEncodeType>)
    ensures
        copy@.len() == list@.len(),
        models(copy@) == models(list@),
        all_wf(list@) ==> all_wf(copy@),
    decreases list, 0int,
{
    let mut copy: Vec<BEncodeType> = Vec::new();
    let mut i: usize = 0;
    assert(list@.take(0) =~= Seq::empty());
    while i < list.len()
        invariant
            i <= list@.len(),
            copy@.len() == i,
            models(copy@) == models(list@.take(i as int)),
            all_wf(list@.take(i as int)) ==> all_wf(copy@),
        decreases list@.len() - i,
    {
        assert(decreases_to!(list@ => list@[i as int]));
        let item = list[i].clone();
        proof {
            lemma_models_push(copy@, item);
            lemma_models_push(list@.take(i as int), list@[i as int]);
            assert(list@.take(i + 1) =~= list@.take(i as int).push(list@[i as int]));
        }
        copy.push(item);
        i = i + 1;
    }
    assert(list@.take(i as int) =~= list@);
    copy
}

/// A copy of the entries of a dictionary.
fn clone_entries(dictionary: &Dictionary<BEncodeType>) -> (copy: Dictionary<BEncodeType>)
    ensures
        entry_models(copy) == entry_models(*dictionary),
        dictionary.wf() ==> copy.wf(),
        all_wf(dictionary.values@) ==> all_wf(copy.values@),
    decreases dictionary, 0int,
{
    let mut keys: Vec<String> = Vec::new();
    let mut i: usize = 0;
    while i < dictionary.keys.len()
        invariant
            i <= dictionary.keys@.len(),
            keys@.len() == i,
            forall|j: int| 0 <= j < i ==> (#[trigger] keys@[j])@ == dictionary.keys@[j]@,
        decreases dictionary.keys@.len() - i,
    {
        keys.push(dictionary.keys[i].as_str().to_owned());
        i = i + 1;
    }
    let copy = Dictionary { keys, values: clone_list(&dictionary.values) };
    assert(entry_models(copy) =~= entry_models(*dictionary));
    proof {
        if dictionary.wf() {
            assert forall|a: int, b: int| 0 <= a < b < copy.pairs().len() implies (
            #[trigger] copy.pairs()[a]).0 != (#[trigger] copy.pairs()[b]).0 by {
                assert(dictionary.pairs()[a].0 != dictionary.pairs()[b].0);
            }
        }
    }
    copy
}

/// What the metainfo says of a torrent's contents.
pub struct InfoValue {
    pub info_hash: Seq<u8>,
    pub info_hash_str: Seq<char>,
    pub length: u64,
    pub name: Seq<char>,
    pub piece_length: u64,
    pub files: Seq<(Seq<char>, u64)>,
    pub pieces: Seq<Seq<u8>>,
}

/// What a metainfo file says.
pub struct TorrentValue {
    pub announce: Seq<char>,
    pub announce_list: Seq<Seq<char>>,
    pub info: InfoValue,
}

/// A file entry with both a path and a length has a path that is not empty.
pub open spec fn file_ok(entry: BValue) -> bool {
    match (lookup(entries_of(entry), "path"@), lookup(entries_of(entry), "length"@)) {
        (Some(path), Some(length)) => items_of(path).len() > 0,
        _ => true,
    }
}

/// The path and the length of a file entry that has both: the torrent's name, a
/// slash and the first component of the path.
pub open spec fn file_of(name: Seq<char>, entry: BValue) -> Option<(Seq<char>, u64)> {
    match (lookup(entries_of(entry), "path"@), lookup(entries_of(entry), "length"@)) {
        (Some(path), Some(length)) => Some(
            (name + "/"@ + text_of(items_of(path)[0]), int_of(length) as u64),
        ),
        _ => None,
    }
}

/// The files of a list of file entries; an entry without a path or without a
/// length is left out.
pub open spec fn files_of(name: Seq<char>, entries: Seq<BValue>) -> Seq<(Seq<char>, u64)>
    decreases entries.len(),
{
    if entries.len() == 0 {
        Seq::empty()
    } else {
        let before = files_of(name, entries.drop_last());
        match file_of(name, entries.last()) {
            Some(file) => before.push(file),
            None => before,
        }
    }
}

/// The value is a dictionary with all that a torrent needs.
pub open spec fn info_ok(info: BValue) -> bool {
    &&& info is Dictionary
    &&& lookup(entries_of(info), "name"@) is Some
    &&& lookup(entries_of(info), "piece length"@) is Some
    &&& lookup(entries_of(info), "pieces"@) is Some
    &&& match lookup(entries_of(info), "files"@) {
        Some(files) => forall|i: int|
            0 <= i < items_of(files).len() ==> file_ok(#[trigger] items_of(files)[i]),
        None => true,
    }
}

/// What the info dictionary says: a torrent without a list of files is one file
/// under the torrent's own name.
pub open spec fn info_of(info: BValue) -> InfoValue {
    let entries = entries_of(info);
    let name = text_of(lookup(entries, "name"@).unwrap());
    let length = match lookup(entries, "length"@) {
        Some(length) => int_of(length) as u64,
        None => 0,
    };
    InfoValue {
        info_hash: hash_of(info),
        info_hash_str: hash_str_of(info),
        length,
        name,
        piece_length: int_of(lookup(entries, "piece length"@).unwrap()) as u64,
        files: match lookup(entries, "files"@) {
            Some(files) => files_of(name, items_of(files)),
            None => seq![(name, length)],
        },
        pieces: chunks_of_20(bytes_of(lookup(entries, "pieces"@).unwrap())),
    }
}

/// Every item of the list is itself a list that is not empty.
pub open spec fn announce_list_ok(lists: Seq<BValue>) -> bool {
    forall|i: int| 0 <= i < lists.len() ==> items_of(#[trigger] lists[i]).len() > 0
}

/// The first text of each list.
pub open spec fn announce_list_of(lists: Seq<BValue>) -> Seq<Seq<char>> {
    Seq::new(lists.len(), |i: int| text_of(items_of(lists[i])[0]))
}

/// What a metainfo file says, or nothing where it is not one.
pub open spec fn torrent_of(data: Seq<u8>) -> Option<TorrentValue> {
    match value_at(data, 0) {
        Some((value, end)) => {
            let entries = entries_of(value);
            let lists = match lookup(entries, "announce-list"@) {
                Some(list) => items_of(list),
                None => Seq::empty(),
            };
            match lookup(entries, "info"@) {
                Some(info) => if info_ok(info) && announce_list_ok(lists) {
                    Some(
                        TorrentValue {
                            announce: match lookup(entries, "announce"@) {
                                Some(announce) => text_of(announce),
                                None => Seq::empty(),
                            },
                            announce_list: announce_list_of(lists),
                            info: info_of(info),
                        },
                    )
                } else {
                    None
                },
                None => None,
            }
        },
        None => None,
    }
}

/// Paths and lengths as they are meant.
pub open spec fn named_sizes(files: Seq<(String, u64)>) -> Seq<(Seq<char>, u64)> {
    Seq::new(files.len(), |i: int| (files[i].0@, files[i].1))
}

/// What a torrent holds: its files, and the digests of its pieces.
pub struct TorrentInfo {
    info_hash: [u8; 20],
    info_hash_str: String,
    length: u64,
    name: String,
    piece_length: u64,
    files: Vec<(String, u64)>,
    pieces: Vec<Vec<u8>>,
}

impl TorrentInfo {
    /// What the info says.
    pub closed spec fn value(self) -> InfoValue {
        InfoValue {
            info_hash: self.info_hash@,
            info_hash_str: self.info_hash_str@,
            length: self.length,
            name: self.name@,
            piece_length: self.piece_length,
            files: named_sizes(self.files@),
            pieces: contents(self.pieces@),
        }
    }

    /// Reads the info dictionary, or nothing where something is missing.
    pub fn try_new(info: &BEncodeType) -> (parsed: Option<TorrentInfo>)
        requires
            info.wf(),
        ensures
            match parsed {
                Some(torrent) => info_ok(info.model()) && torrent.value() == info_of(info.model()),
                None => !info_ok(info.model()),
            },
    {
        if !matches!(info, BEncodeType::Dictionary { .. }) {
            return None;
        }
        let info_hash = info.as_dictionary_hash();
        let info_hash_str = info.as_dictionary_hash_str();
        let length: u64 = match info.entry("length") {
            Some(length) => length.as_integer() as u64,
            None => 0,
        };
        let name = match info.entry("name") {
            Some(name) => name.as_string(),
            None => return None,
        };
        let piece_length: u64 = match info.entry("piece length") {
            Some(piece_length) => piece_length.as_integer() as u64,
            None => return None,
        };
        let pieces = match info.entry("pieces") {
            Some(pieces) => split_chunks(pieces.as_string_bytes().as_slice()),
            None => return None,
        };
        let files = match info.entry("files") {
            Some(files) => match read_files(&name, files) {
                Some(files) => files,
                None => return None,
            },
            None => {
                let mut files: Vec<(String, u64)> = Vec::new();
                files.push((name.as_str().to_owned(), length));
                assert(named_sizes(files@) =~= seq![(name@, length)]);
                files
            },
        };
        Some(
            TorrentInfo {
                info_hash,
                info_hash_str,
                length,
                name,
                piece_length,
                files,
                pieces,
            },
        )
    }

    /// Reads the info dictionary.
    pub fn new(info: &BEncodeType) -> (torrent: TorrentInfo)
        requires
            info.wf(),
            info_ok(info.model()),
        ensures
            torrent.value() == info_of(info.model()),
    {
        TorrentInfo::try_new(info).unwrap()
    }

    /// The digest that the torrent is known by.
    pub fn info_hash(&self) -> (hash: &[u8; 20])
        ensures
            hash@ == self.value().info_hash,
    {
        &self.info_hash
    }

    /// The digest that the torrent is known by, in hexadecimal.
    pub fn info_hash_str(&self) -> (text: &str)
        ensures
            text@ == self.value().info_hash_str,
    {
        self.info_hash_str.as_str()
    }

    /// The length of a torrent of one file; zero where the metainfo gives none.
    pub fn length(&self) -> (length: u64)
        ensures
            length == self.value().length,
    {
        self.length
    }

    /// The torrent's name.
    pub fn name(&self) -> (name: &str)
        ensures
            name@ == self.value().name,
    {
        self.name.as_str()
    }

    /// The number of bytes in a piece.
    pub fn piece_length(&self) -> (length: u64)
        ensures
            length == self.value().piece_length,
    {
        self.piece_length
    }

    /// The path and the length of each file.
    pub fn files(&self) -> (files: &[(String, u64)])
        ensures
            named_sizes(files@) == self.value().files,
    {
        self.files.as_slice()
    }

    /// The digest of each piece.
    pub fn pieces(&self) -> (pieces: &[Vec<u8>])
        ensures
            contents(pieces@) == self.value().pieces,
    {
        self.pieces.as_slice()
    }
}

/// Reads a list of file entries, or nothing where one of them has an empty path.
fn read_files(name: &String, files: &BEncodeType) -> (read: Option<Vec<(String, u64)>>)
    requires
        files.wf(),
    ensures
        match read {
            Some(list) => (forall|i: int|
                0 <= i < items_of(files.model()).len() ==> file_ok(
                    #[trigger] items_of(files.model())[i],
                )) && named_sizes(list@) == files_of(name@, items_of(files.model())),
            None => exists|i: int|
                0 <= i < items_of(files.model()).len() && !file_ok(
                    #[trigger] items_of(files.model())[i],
                ),
        },
{
    let entries = files.as_list();
    let ghost values = items_of(files.model());
    let mut list: Vec<(String, u64)> = Vec::new();
    proof {
        lemma_models(entries@);
        lemma_all_wf(entries@);
        assert(values.take(0) =~= Seq::empty());
        assert(named_sizes(list@) =~= Seq::empty());
    }
    let mut i: usize = 0;
    while i < entries.len()
        invariant
            i <= entries@.len(),
            values == items_of(files.model()),
            values.len() == entries@.len(),
            forall|k: int| 0 <= k < entries@.len() ==> #[trigger] values[k] == entries@[k].model(),
            forall|k: int| 0 <= k < entries@.len() ==> (#[trigger] entries@[k]).wf(),
            forall|k: int| 0 <= k < i ==> file_ok(#[trigger] values[k]),
            named_sizes(list@) == files_of(name@, values.take(i as int)),
        decreases entries@.len() - i,
    {
        let ghost value = values[i as int];
        proof {
            assert(values.take(i + 1).drop_last() =~= values.take(i as int));
        }
        let entry = &entries[i];
        if let (Some(path), Some(length)) = (entry.entry("path"), entry.entry("length")) {
            let components = path.as_list();
            proof {
                lemma_models(components@);
            }
            if components.len() == 0 {
                assert(!file_ok(values[i as int]));
                return None;
            }
            let full_path = concat(concat(name.as_str(), "/").as_str(), components[0].as_string().as_str());
            let ghost before = list@;
            list.push((full_path, length.as_integer() as u64));
            assert(named_sizes(list@) =~= named_sizes(before).push(
                (list@.last().0@, list@.last().1),
            ));
        }
        i = i + 1;
    }
    assert(values.take(i as int) =~= values);
    Some(list)
}

/// What a metainfo file says.
pub struct ParsedTorrent {
    announce: String,
    announce_list: Vec<String>,
    info: TorrentInfo,
}

impl ParsedTorrent {
    /// What the file says.
    pub closed spec fn value(self) -> TorrentValue {
        TorrentValue {
            announce: self.announce@,
            announce_list: texts(self.announce_list@),
            info: self.info.value(),
        }
    }

    /// Reads a metainfo file, or nothing where it is not one.
    pub fn try_new(data: Vec<u8>) -> (parsed: Option<ParsedTorrent>)
        requires
            data@.len() <= MAX_HASHED_LEN,
        ensures
            match parsed {
                Some(torrent) => torrent_of(data@) == Some(torrent.value()),
                None => torrent_of(data@) is None,
            },
    {
        let mut cursor = Cursor::new(data.as_slice());
        let root = match BEncodeType::try_parse_type(&mut cursor) {
            Some(root) => root,
            None => return None,
        };
        let announce = match root.entry("announce") {
            Some(entry) => entry.as_string(),
            None => String::new(),
        };
        let announce_list = match root.entry("announce-list") {
            Some(entry) => match read_announce_list(entry) {
                Some(list) => list,
                None => return None,
            },
            None => {
                let list: Vec<String> = Vec::new();
                assert(texts(list@) =~= announce_list_of(Seq::empty()));
                list
            },
        };
        let info = match root.entry("info") {
            Some(entry) => match TorrentInfo::try_new(entry) {
                Some(info) => info,
                None => return None,
            },
            None => return None,
        };
        Some(ParsedTorrent { announce, announce_list, info })
    }

    /// Reads a metainfo file.
    pub fn new(data: Vec<u8>) -> (torrent: ParsedTorrent)
        requires
            data@.len() <= MAX_HASHED_LEN,
            torrent_of(data@) is Some,
        ensures
            torrent_of(data@) == Some(torrent.value()),
    {
        ParsedTorrent::try_new(data).unwrap()
    }

    /// The tracker.
    pub fn announce(&self) -> (announce: &String)
        ensures
            announce@ == self.value().announce,
    {
        &self.announce
    }

    /// The further trackers.
    pub fn announce_list(&self) -> (list: &Vec<String>)
        ensures
            texts(list@) == self.value().announce_list,
    {
        &self.announce_list
    }

    /// What the torrent holds.
    pub fn info(&self) -> (info: &TorrentInfo)
        ensures
            info.value() == self.value().info,
    {
        &self.info
    }

    /// The torrent's name.
    pub fn get_name(&self) -> (name: String)
        ensures
            name@ == self.value().info.name,
    {
        self.info.name.as_str().to_owned()
    }

    /// The path and the length of each file.
    pub fn get_files(&self) -> (files: &Vec<(String, u64)>)
        ensures
            named_sizes(files@) == self.value().info.files,
    {
        &self.info.files
    }
}

/// Reads a list of lists of trackers: the first of each, or nothing where one
/// of the lists is empty.
fn read_announce_list(entry: &BEncodeType) -> (read: Option<Vec<String>>)
    requires
        entry.wf(),
    ensures
        match read {
            Some(list) => announce_list_ok(items_of(entry.model())) && texts(list@)
                == announce_list_of(items_of(entry.model())),
            None => !announce_list_ok(items_of(entry.model())),
        },
{
    let lists = entry.as_list();
    let ghost values = items_of(entry.model());
    let mut read: Vec<String> = Vec::new();
    proof {
        lemma_models(lists@);
    }
    let mut i: usize = 0;
    while i < lists.len()
        invariant
            i <= lists@.len(),
            values == items_of(entry.model()),
            values.len() == lists@.len(),
            forall|k: int| 0 <= k < lists@.len() ==> #[trigger] values[k] == lists@[k].model(),
            forall|k: int| 0 <= k < i ==> items_of(#[trigger] values[k]).len() > 0,
            read@.len() == i,
            forall|k: int|
                0 <= k < i ==> (#[trigger] read@[k])@ == text_of(items_of(values[k])[0]),
        decreases lists@.len() - i,
    {
        let ghost value = values[i as int];
        let trackers = lists[i].as_list();
        proof {
            lemma_models(trackers@);
        }
        if trackers.len() == 0 {
            return None;
        }
        read.push(trackers[0].as_string());
        i = i + 1;
    }
    assert(texts(read@) =~= announce_list_of(values));
    Some(read)
}

/// Each reading takes one value: of two values, one behind the other, the first is
/// read as if it stood alone, up to its end, and from there the second one.
pub proof fn lemma_one_value_at_a_time(first: Seq<u8>, second: Seq<u8>)
    requires
        value_at(first, 0) matches Some((value, end)) && end == first.len(),
        value_at(second, 0) matches Some((value, end)) && end == second.len(),
    ensures
        value_at(first + second, 0) == value_at(first, 0),
        value_at(first + second, first.len() as int) == Some(
            (value_at(second, 0).unwrap().0, (first.len() + second.len()) as int),
        ),
{
    lemma_value_prefix(first, second, 0);
    lemma_value_anywhere(first, second, 0);
}

/// The digest of a dictionary is that of its own bytes, from the `d` to the `e` that
/// belongs to it, wherever it stands; its text is that digest in hexadecimal digits.
pub proof fn lemma_dictionary_digest(before: Seq<u8>, dictionary: Seq<u8>, rest: Seq<u8>)
    requires
        value_at(dictionary, 0) matches Some((value, end)) && value is Dictionary && end
            == dictionary.len(),
    ensures
        ({
            let value = value_at(dictionary, 0).unwrap().0;
            &&& hash_of(value) == sha1_of(dictionary)
            &&& hash_str_of(value) == hex_of(sha1_of(dictionary))
            &&& value_at(before + dictionary + rest, before.len() as int) == Some(
                (value, (before.len() + dictionary.len()) as int),
            )
        }),
{
    lemma_text_end(dictionary, 0);
    assert(dictionary.subrange(0, dictionary.len() as int) =~= dictionary);
    lemma_value_anywhere(before, dictionary, 0);
    lemma_value_prefix(before + dictionary, rest, before.len() as int);
}

/// The digest of a torrent is that of the bytes of its info dictionary.
pub proof fn lemma_info_hash(dictionary: Seq<u8>)
    requires
        value_at(dictionary, 0) matches Some((info, end)) && info_ok(info) && end
            == dictionary.len(),
    ensures
        ({
            let info = info_of(value_at(dictionary, 0).unwrap().0);
            &&& info.info_hash == sha1_of(dictionary)
            &&& info.info_hash_str == hex_of(sha1_of(dictionary))
        }),
{
    lemma_dictionary_digest(Seq::empty(), dictionary, Seq::empty());
}

/// The info dictionary of a metainfo file stands from `from` up to `to`.
pub open spec fn info_stands(data: Seq<u8>, from: int, to: int) -> bool {
    &&& 0 <= from < to <= data.len()
    &&& value_at(data, 0) matches Some((value, end)) && lookup(entries_of(value), "info"@) matches Some(
        info,
    ) && value_at(data, from) == Some((info, to))
}

/// The digest of a torrent that was read from a metainfo file is that of the bytes of
/// its info dictionary as they stand in the file.
pub proof fn lemma_torrent_info_hash(data: Seq<u8>)
    requires
        torrent_of(data) is Some,
    ensures
        exists|from: int, to: int| #[trigger]
            info_stands(data, from, to) && torrent_of(data).unwrap().info.info_hash == sha1_of(
                data.subrange(from, to),
            ) && torrent_of(data).unwrap().info.info_hash_str == hex_of(
                sha1_of(data.subrange(from, to)),
            ),
{
    let (value, end) = value_at(data, 0).unwrap();
    let info = lookup(entries_of(value), "info"@).unwrap();
    lemma_text_end(data, 0);
    lemma_lookup_empty::<BValue>("info"@);
    lemma_entry_stands(data, 1, Seq::empty(), "info"@);
    let (from, to) = choose|from: int, to: int| #[trigger] stands(data, from, to, info);
    lemma_text_end(data, from);
    assert(info_stands(data, from, to));
}

/// The value stands from `from` up to `to`.
pub open spec fn stands(data: Seq<u8>, from: int, to: int, value: BValue) -> bool {
    0 <= from < to <= data.len() && value_at(data, from) == Some((value, to))
}

proof fn lemma_lookup_empty<W>(key: Seq<char>)
    ensures
        lookup(Seq::<(Seq<char>, W)>::empty(), key) is None,
{
}

/// What is found under a key was there before, or stands in the data.
proof fn lemma_entry_stands(
    data: Seq<u8>,
    pos: int,
    read: Seq<(Seq<char>, BValue)>,
    key: Seq<char>,
)
    requires
        0 <= pos,
        entries_at(data, pos, read) is Some,
    ensures
        lookup(entries_at(data, pos, read).unwrap().0, key) matches Some(value) ==> lookup(read, key)
            == Some(value) || exists|from: int, to: int| #[trigger] stands(data, from, to, value),
    decreases data.len() - pos,
{
    if data[pos] != E_CHAR {
        if let Some((BValue::Text { text, bytes }, middle)) = text_at(data, pos) {
            if let Some((value, end)) = value_at(data, middle) {
                assert(stands(data, middle, end, value));
                lemma_put(read, text, value);
                lemma_entry_stands(data, end, put(read, text, value), key);
            }
        }
    }
}

} // verus!
