//! Bencoded values read at a position of a byte string, and the metainfo of a
//! torrent built of them.
//!
//! Strings are taken byte by byte, lists and dictionaries hold at least one
//! entry, and numbers have no sign.
use vstd::prelude::*;

use crate::bencode::named_sizes;
use crate::dictionary::{Dictionary, has_key, is_first, lemma_first_is_unique, lookup, put};
use crate::hashing::{MAX_HASHED_LEN, sha1_digest, sha1_of};
use crate::scan::{
    chunks_of_20, contents, copy_bytes, copy_range, find_byte, find_from, lemma_find_from,
    lemma_find_from_prefix, lemma_find_from_shift, shifted, split_chunks,
};
use crate::text::{concat, latin1, parse_unsigned, read_unsigned, string_from_latin1, texts};

verus! {

/// The byte `d`, which opens a dictionary.
pub const DICTIONARY_MARK: u8 = 100;

/// The byte `e`, which closes a number, a list or a dictionary.
pub const END_MARK: u8 = 101;

/// The byte `i`, which opens a number.
pub const INTEGER_MARK: u8 = 105;

/// The byte `l`, which opens a list.
pub const LIST_MARK: u8 = 108;

/// The colon, which stands between a string's length and its bytes.
pub const LENGTH_MARK: u8 = 58;

/// What a bencoded value means.
pub enum Value {
    Int(u64),
    /// A byte string, and the text in which each byte is one character.
    Text { text: Seq<char>, bytes: Seq<u8> },
    List(Seq<Value>),
    Dictionary { entries: Seq<(Seq<char>, Value)>, hash: Seq<u8> },
}

/// Reads a byte string at `pos`: its length in decimal, a colon, the bytes.
pub open spec fn text_at(data: Seq<u8>, pos: int) -> Option<(Value, int)> {
    match find_from(data, pos, LENGTH_MARK) {
        Some(colon) => match parse_unsigned(data.subrange(pos, colon), usize::MAX as nat) {
            Some(n) => if colon + 1 + n <= data.len() {
                let bytes = data.subrange(colon + 1, colon + 1 + n);
                Some((Value::Text { text: latin1(bytes), bytes }, colon + 1 + n))
            } else {
                None
            },
            None => None,
        },
        None => None,
    }
}

/// Reads a number at `pos`, behind its `i`: decimal, closed by an `e`.
pub open spec fn int_at(data: Seq<u8>, pos: int) -> Option<(Value, int)> {
    match find_from(data, pos, END_MARK) {
        Some(end) => match parse_unsigned(data.subrange(pos, end), u64::MAX as nat) {
            Some(n) => Some((Value::Int(n as u64), end + 1)),
            None => None,
        },
        None => None,
    }
}

/// Reads any value at `pos`.
pub open spec fn value_at(data: Seq<u8>, pos: int) -> Option<(Value, int)>
    decreases data.len() - pos, 0int,
{
    if pos < 0 || pos >= data.len() {
        None
    } else if data[pos] == DICTIONARY_MARK {
        dictionary_at(data, pos + 1)
    } else if data[pos] == LIST_MARK {
        list_at(data, pos + 1)
    } else if data[pos] == INTEGER_MARK {
        int_at(data, pos + 1)
    } else {
        text_at(data, pos)
    }
}

/// Reads a list at `pos`, behind its `l`.
pub open spec fn list_at(data: Seq<u8>, pos: int) -> Option<(Value, int)>
    decreases data.len() - pos, 2int,
{
    match items_at(data, pos, Seq::empty()) {
        Some((items, end)) => Some((Value::List(items), end)),
        None => None,
    }
}

/// Reads a dictionary at `pos`, behind its `d`. Its digest is that of the bytes
/// up to its end from the place before `pos`, of which the lower sixteen bits
/// count.
pub open spec fn dictionary_at(data: Seq<u8>, pos: int) -> Option<(Value, int)>
    decreases data.len() - pos, 2int,
{
    match entries_at(data, pos, Seq::empty()) {
        Some((entries, end)) => if pos % 0x10000 != 0 {
            Some(
                (
                    Value::Dictionary {
                        entries,
                        hash: sha1_of(data.subrange(pos % 0x10000 - 1, end)),
                    },
                    end,
                ),
            )
        } else {
            None
        },
        None => None,
    }
}

/// Reads values from `pos`, behind those already read: at least one, and more
/// until an `e` follows.
pub open spec fn items_at(data: Seq<u8>, pos: int, read: Seq<Value>) -> Option<(Seq<Value>, int)>
    decreases data.len() - pos, 1int,
{
    match value_at(data, pos) {
        Some((value, end)) => if !(pos < end < data.len()) {
            None
        } else if data[end] == END_MARK {
            Some((read.push(value), end + 1))
        } else {
            items_at(data, end, read.push(value))
        },
        None => None,
    }
}

/// Reads keys, each with its value, from `pos`: at least one, and more until an
/// `e` follows. A key that comes again takes the later value.
pub open spec fn entries_at(data: Seq<u8>, pos: int, read: Seq<(Seq<char>, Value)>) -> Option<
    (Seq<(Seq<char>, Value)>, int),
>
    decreases data.len() - pos, 1int,
{
    match text_at(data, pos) {
        Some((Value::Text { text, bytes }, middle)) => if !(0 <= pos < middle <= data.len()) {
            None
        } else {
            match value_at(data, middle) {
                Some((value, end)) => if !(middle < end < data.len()) {
                    None
                } else if data[end] == END_MARK {
                    Some((put(read, text, value), end + 1))
                } else {
                    entries_at(data, end, put(read, text, value))
                },
                None => None,
            }
        },
        _ => None,
    }
}

/// A byte string ends behind where it begins, and within the data.
pub proof fn lemma_text_end(data: Seq<u8>, pos: int)
    requires
        0 <= pos,
    ensures
        text_at(data, pos) matches Some((value, end)) ==> pos < end <= data.len() && value is Text,
{
    lemma_find_from(data, pos, LENGTH_MARK);
}

/// A value ends behind where it begins, and within the data.
pub proof fn lemma_value_end(data: Seq<u8>, pos: int)
    requires
        0 <= pos,
    ensures
        value_at(data, pos) matches Some((value, end)) ==> pos < end <= data.len(),
    decreases data.len() - pos, 0int,
{
    if pos < data.len() {
        lemma_find_from(data, pos + 1, END_MARK);
        lemma_text_end(data, pos);
        lemma_items_end(data, pos + 1, Seq::empty());
        lemma_entries_end(data, pos + 1, Seq::empty());
    }
}

/// A list ends behind where it begins, and within the data.
pub proof fn lemma_items_end(data: Seq<u8>, pos: int, read: Seq<Value>)
    requires
        0 <= pos,
    ensures
        items_at(data, pos, read) matches Some((items, end)) ==> pos < end <= data.len()
            && items.len() > 0,
    decreases data.len() - pos, 1int,
{
    if let Some((value, end)) = value_at(data, pos) {
        if pos < end < data.len() && data[end] != END_MARK {
            lemma_items_end(data, end, read.push(value));
        }
    }
}

/// The entries of a dictionary end behind where they begin, and within the data.
pub proof fn lemma_entries_end(data: Seq<u8>, pos: int, read: Seq<(Seq<char>, Value)>)
    requires
        0 <= pos,
    ensures
        entries_at(data, pos, read) matches Some((entries, end)) ==> pos < end <= data.len(),
    decreases data.len() - pos, 1int,
{
    if let Some((Value::Text { text, bytes }, middle)) = text_at(data, pos) {
        if pos < middle <= data.len() {
            if let Some((value, end)) = value_at(data, middle) {
                if middle < end < data.len() && data[end] != END_MARK {
                    lemma_entries_end(data, end, put(read, text, value));
                }
            }
        }
    }
}

/// A byte string reads alike wherever it stands.
pub proof fn lemma_text_anywhere(before: Seq<u8>, data: Seq<u8>, pos: int)
    requires
        0 <= pos,
    ensures
        text_at(before + data, before.len() + pos) == shifted(text_at(data, pos), before.len() as int),
{
    let all = before + data;
    let by = before.len() as int;
    lemma_find_from_shift(before, data, pos, LENGTH_MARK);
    lemma_find_from(data, pos, LENGTH_MARK);
    if let Some(colon) = find_from(data, pos, LENGTH_MARK) {
        assert(all.subrange(by + pos, by + colon) =~= data.subrange(pos, colon));
        if let Some(n) = parse_unsigned(data.subrange(pos, colon), usize::MAX as nat) {
            if colon + 1 + n <= data.len() {
                assert(all.subrange(by + colon + 1, by + colon + 1 + n) =~= data.subrange(
                    colon + 1,
                    colon + 1 + n,
                ));
            }
        }
    }
}

proof fn lemma_int_anywhere(before: Seq<u8>, data: Seq<u8>, pos: int)
    requires
        0 <= pos,
    ensures
        int_at(before + data, before.len() + pos) == shifted(int_at(data, pos), before.len() as int),
{
    let by = before.len() as int;
    lemma_find_from_shift(before, data, pos, END_MARK);
    lemma_find_from(data, pos, END_MARK);
    if let Some(end) = find_from(data, pos, END_MARK) {
        assert((before + data).subrange(by + pos, by + end) =~= data.subrange(pos, end));
    }
}

/// The value without the digests of its dictionaries.
pub open spec fn plain(value: Value) -> Value
    decreases value,
{
    match value {
        Value::List(items) => Value::List(plain_items(items)),
        Value::Dictionary { entries, hash } => Value::Dictionary {
            entries: plain_entries(entries),
            hash: Seq::empty(),
        },
        _ => value,
    }
}

/// The values without the digests of their dictionaries.
pub open spec fn plain_items(items: Seq<Value>) -> Seq<Value>
    decreases items,
{
    if items.len() == 0 {
        Seq::empty()
    } else {
        plain_items(items.drop_last()).push(plain(items.last()))
    }
}

/// The keys, and their values without the digests of their dictionaries.
pub open spec fn plain_entries(entries: Seq<(Seq<char>, Value)>) -> Seq<(Seq<char>, Value)>
    decreases entries,
{
    if entries.len() == 0 {
        Seq::empty()
    } else {
        plain_entries(entries.drop_last()).push((entries.last().0, plain(entries.last().1)))
    }
}

/// Where the first keys stand of the dictionaries that are read for the value at
/// `pos`.
pub open spec fn value_starts(data: Seq<u8>, pos: int) -> Set<int>
    decreases data.len() - pos, 0int,
{
    if pos < 0 || pos >= data.len() {
        Set::empty()
    } else if data[pos] == DICTIONARY_MARK {
        if entries_at(data, pos + 1, Seq::empty()) is Some {
            entries_starts(data, pos + 1).insert(pos + 1)
        } else {
            entries_starts(data, pos + 1)
        }
    } else if data[pos] == LIST_MARK {
        items_starts(data, pos + 1)
    } else {
        Set::empty()
    }
}

/// The same for the values of a list from `pos` on.
pub open spec fn items_starts(data: Seq<u8>, pos: int) -> Set<int>
    decreases data.len() - pos, 1int,
{
    value_starts(data, pos).union(
        match value_at(data, pos) {
            Some((value, end)) => if pos < end < data.len() && data[end] != END_MARK {
                items_starts(data, end)
            } else {
                Set::empty()
            },
            None => Set::empty(),
        },
    )
}

/// The same for the entries of a dictionary from `pos` on.
pub open spec fn entries_starts(data: Seq<u8>, pos: int) -> Set<int>
    decreases data.len() - pos, 1int,
{
    match text_at(data, pos) {
        Some((key, middle)) => if 0 <= pos < middle <= data.len() {
            value_starts(data, middle).union(
                match value_at(data, middle) {
                    Some((value, end)) => if middle < end < data.len() && data[end] != END_MARK {
                        entries_starts(data, end)
                    } else {
                        Set::empty()
                    },
                    None => Set::empty(),
                },
            )
        } else {
            Set::empty()
        },
        None => Set::empty(),
    }
}

/// None of the places is a multiple of 65536, neither here nor so much farther
/// behind.
pub open spec fn clear(starts: Set<int>, by: int) -> bool {
    forall|p: int| #[trigger]
        starts.contains(p) ==> p % 0x10000 != 0 && (by + p) % 0x10000 != 0
}

/// All of the places, so much farther behind, are among the first 65536.
pub open spec fn near(starts: Set<int>, by: int) -> bool {
    forall|p: int| #[trigger] starts.contains(p) ==> 0 <= p && by + p < 0x10000
}

/// The one reading has what the other has, so much farther behind, but for the
/// digests of dictionaries.
pub open spec fn moved(read: Option<(Value, int)>, from: Option<(Value, int)>, by: int) -> bool {
    match (read, from) {
        (Some((value, end)), Some((other, place))) => plain(value) == plain(other) && end == by
            + place,
        (None, None) => true,
        _ => false,
    }
}

/// A value reads alike wherever it stands: bytes before it move its end, and change
/// nothing but the digests of dictionaries. Those stay too where the dictionaries
/// begin within the first 65536 bytes. Left out is data in which the first key of a
/// dictionary stands at a multiple of 65536, where there is nothing to be read.
pub proof fn lemma_value_anywhere(before: Seq<u8>, data: Seq<u8>, pos: int)
    requires
        0 <= pos,
        clear(value_starts(data, pos), before.len() as int),
    ensures
        moved(
            value_at(before + data, before.len() + pos),
            value_at(data, pos),
            before.len() as int,
        ),
        near(value_starts(data, pos), before.len() as int) ==> value_at(
            before + data,
            before.len() + pos,
        ) == shifted(value_at(data, pos), before.len() as int),
    decreases data.len() - pos, 0int,
{
    let all = before + data;
    let by = before.len() as int;
    let starts = value_starts(data, pos);
    if pos < data.len() {
        assert(all[by + pos] == data[pos]);
        if data[pos] == DICTIONARY_MARK {
            let inner = entries_starts(data, pos + 1);
            assert forall|p: int| #[trigger] inner.contains(p) implies starts.contains(p) by {}
            lemma_entries_anywhere(before, data, pos + 1, Seq::empty(), Seq::empty());
            lemma_entries_end(data, pos + 1, Seq::empty());
            if let Some((entries, end)) = entries_at(data, pos + 1, Seq::empty()) {
                assert(starts.contains(pos + 1));
                assert(all.subrange(by + pos, by + end) =~= data.subrange(pos, end));
                if near(starts, by) {
                    assert((by + pos + 1) % 0x10000 == by + pos + 1);
                    assert((pos + 1) % 0x10000 == pos + 1);
                }
            }
        } else if data[pos] == LIST_MARK {
            lemma_items_anywhere(before, data, pos + 1, Seq::empty(), Seq::empty());
        } else if data[pos] == INTEGER_MARK {
            lemma_int_anywhere(before, data, pos + 1);
        } else {
            lemma_text_anywhere(before, data, pos);
        }
    }
}

proof fn lemma_items_anywhere(
    before: Seq<u8>,
    data: Seq<u8>,
    pos: int,
    read: Seq<Value>,
    other: Seq<Value>,
)
    requires
        0 <= pos,
        clear(items_starts(data, pos), before.len() as int),
        plain_items(read) == plain_items(other),
    ensures
        match (items_at(before + data, before.len() + pos, read), items_at(data, pos, other)) {
            (Some((items, end)), Some((others, place))) => plain_items(items) == plain_items(others)
                && end == before.len() + place,
            (None, None) => true,
            _ => false,
        },
        near(items_starts(data, pos), before.len() as int) && read == other ==> items_at(
            before + data,
            before.len() + pos,
            read,
        ) == shifted(items_at(data, pos, other), before.len() as int),
    decreases data.len() - pos, 1int,
{
    let all = before + data;
    let by = before.len() as int;
    let starts = items_starts(data, pos);
    assert forall|p: int| #[trigger] value_starts(data, pos).contains(p) implies starts.contains(
        p,
    ) by {}
    lemma_value_anywhere(before, data, pos);
    if let Some((value, end)) = value_at(data, pos) {
        let (moved_value, moved_end) = value_at(all, by + pos).unwrap();
        lemma_plain_push(read, moved_value);
        lemma_plain_push(other, value);
        if pos < end < data.len() {
            assert(all[by + end] == data[end]);
            if data[end] != END_MARK {
                assert forall|p: int| #[trigger]
                    items_starts(data, end).contains(p) implies starts.contains(p) by {}
                lemma_items_anywhere(before, data, end, read.push(moved_value), other.push(value));
            }
        }
    }
}

proof fn lemma_entries_anywhere(
    before: Seq<u8>,
    data: Seq<u8>,
    pos: int,
    read: Seq<(Seq<char>, Value)>,
    other: Seq<(Seq<char>, Value)>,
)
    requires
        0 <= pos,
        clear(entries_starts(data, pos), before.len() as int),
        plain_entries(read) == plain_entries(other),
    ensures
        match (entries_at(before + data, before.len() + pos, read), entries_at(data, pos, other)) {
            (Some((entries, end)), Some((others, place))) => plain_entries(entries)
                == plain_entries(others) && end == before.len() + place,
            (None, None) => true,
            _ => false,
        },
        near(entries_starts(data, pos), before.len() as int) && read == other ==> entries_at(
            before + data,
            before.len() + pos,
            read,
        ) == shifted(entries_at(data, pos, other), before.len() as int),
    decreases data.len() - pos, 1int,
{
    let all = before + data;
    let by = before.len() as int;
    let starts = entries_starts(data, pos);
    lemma_text_anywhere(before, data, pos);
    lemma_text_end(data, pos);
    if let Some((Value::Text { text, bytes }, middle)) = text_at(data, pos) {
        assert forall|p: int| #[trigger]
            value_starts(data, middle).contains(p) implies starts.contains(p) by {}
        lemma_value_anywhere(before, data, middle);
        if let Some((value, end)) = value_at(data, middle) {
            let (moved_value, moved_end) = value_at(all, by + middle).unwrap();
            lemma_plain_put(read, other, text, moved_value, value);
            if middle < end < data.len() {
                assert(all[by + end] == data[end]);
                if data[end] != END_MARK {
                    assert forall|p: int| #[trigger]
                        entries_starts(data, end).contains(p) implies starts.contains(p) by {}
                    lemma_entries_anywhere(
                        before,
                        data,
                        end,
                        put(read, text, moved_value),
                        put(other, text, value),
                    );
                }
            }
        }
    }
}

proof fn lemma_plain_push(items: Seq<Value>, value: Value)
    ensures
        plain_items(items.push(value)) == plain_items(items).push(plain(value)),
{
    assert(items.push(value).drop_last() =~= items);
}

proof fn lemma_plain_entries(entries: Seq<(Seq<char>, Value)>)
    ensures
        plain_entries(entries).len() == entries.len(),
        forall|i: int|
            0 <= i < entries.len() ==> #[trigger] plain_entries(entries)[i] == (
                entries[i].0,
                plain(entries[i].1),
            ),
    decreases entries.len(),
{
    if entries.len() > 0 {
        lemma_plain_entries(entries.drop_last());
    }
}

proof fn lemma_plain_put(
    read: Seq<(Seq<char>, Value)>,
    other: Seq<(Seq<char>, Value)>,
    key: Seq<char>,
    value: Value,
    other_value: Value,
)
    requires
        plain_entries(read) == plain_entries(other),
        plain(value) == plain(other_value),
    ensures
        plain_entries(put(read, key, value)) == plain_entries(put(other, key, other_value)),
{
    lemma_plain_entries(read);
    lemma_plain_entries(other);
    let first = put(read, key, value);
    let second = put(other, key, other_value);
    lemma_plain_entries(first);
    lemma_plain_entries(second);
    assert forall|i: int| 0 <= i < read.len() implies (#[trigger] read[i]).0 == other[i].0 && plain(
        read[i].1,
    ) == plain(other[i].1) by {
        assert(plain_entries(read)[i] == plain_entries(other)[i]);
    }
    assert forall|i: int| 0 <= i < other.len() implies (#[trigger] other[i]).0 == read[i].0 by {
        assert(plain_entries(read)[i] == plain_entries(other)[i]);
    }
    assert forall|i: int| is_first(read, key, i) implies is_first(other, key, i) by {}
    assert forall|i: int| is_first(other, key, i) implies is_first(read, key, i) by {
        assert(read[i].0 == other[i].0);
    }
    if has_key(read, key) {
        let i = choose|i: int| is_first(read, key, i);
        let j = choose|j: int| is_first(other, key, j);
        assert(is_first(other, key, i));
        lemma_first_is_unique(other, key, i, j);
    } else {
        assert(!has_key(other, key));
    }
    assert(plain_entries(first) =~= plain_entries(second)) by {
        assert forall|i: int| 0 <= i < first.len() implies plain_entries(first)[i]
            == plain_entries(second)[i] by {
            if i < read.len() {
                assert(read[i].0 == other[i].0);
            }
        }
    }
}

/// A value that stands at some place of the data stands there still when bytes are
/// put behind the data: what is read, digests and all, never depends on what follows.
pub proof fn lemma_value_prefix(data: Seq<u8>, rest: Seq<u8>, pos: int)
    requires
        0 <= pos,
    ensures
        value_at(data, pos) is Some ==> value_at(data + rest, pos) == value_at(data, pos),
    decreases data.len() - pos, 0int,
{
    if pos < data.len() {
        if data[pos] == DICTIONARY_MARK {
            lemma_dictionary_prefix(data, rest, pos + 1);
        } else if data[pos] == LIST_MARK {
            lemma_items_prefix(data, rest, pos + 1, Seq::empty());
        } else if data[pos] == INTEGER_MARK {
            lemma_find_from_prefix(data, rest, pos + 1, END_MARK);
            lemma_find_from(data, pos + 1, END_MARK);
            if let Some(end) = find_from(data, pos + 1, END_MARK) {
                assert((data + rest).subrange(pos + 1, end) =~= data.subrange(pos + 1, end));
            }
        } else {
            lemma_text_prefix(data, rest, pos);
        }
    }
}

/// A dictionary that stands at some place of the data stands there still, with the
/// same digest, when bytes are put behind the data.
pub proof fn lemma_dictionary_prefix(data: Seq<u8>, rest: Seq<u8>, pos: int)
    requires
        0 <= pos,
    ensures
        dictionary_at(data, pos) is Some ==> dictionary_at(data + rest, pos) == dictionary_at(
            data,
            pos,
        ),
    decreases data.len() - pos, 2int,
{
    lemma_entries_prefix(data, rest, pos, Seq::empty());
    lemma_entries_end(data, pos, Seq::empty());
    if let Some((entries, end)) = entries_at(data, pos, Seq::empty()) {
        let from = pos % 0x10000 - 1;
        if from >= 0 {
            assert((data + rest).subrange(from, end) =~= data.subrange(from, end));
        }
    }
}

proof fn lemma_text_prefix(data: Seq<u8>, rest: Seq<u8>, pos: int)
    requires
        0 <= pos,
    ensures
        text_at(data, pos) is Some ==> text_at(data + rest, pos) == text_at(data, pos),
{
    lemma_find_from_prefix(data, rest, pos, LENGTH_MARK);
    lemma_find_from(data, pos, LENGTH_MARK);
    if let Some(colon) = find_from(data, pos, LENGTH_MARK) {
        assert((data + rest).subrange(pos, colon) =~= data.subrange(pos, colon));
        if let Some(n) = parse_unsigned(data.subrange(pos, colon), usize::MAX as nat) {
            if colon + 1 + n <= data.len() {
                assert((data + rest).subrange(colon + 1, colon + 1 + n) =~= data.subrange(
                    colon + 1,
                    colon + 1 + n,
                ));
            }
        }
    }
}

proof fn lemma_items_prefix(data: Seq<u8>, rest: Seq<u8>, pos: int, read: Seq<Value>)
    requires
        0 <= pos,
    ensures
        items_at(data, pos, read) is Some ==> items_at(data + rest, pos, read) == items_at(
            data,
            pos,
            read,
        ),
    decreases data.len() - pos, 1int,
{
    lemma_value_prefix(data, rest, pos);
    if let Some((value, end)) = value_at(data, pos) {
        if pos < end < data.len() {
            assert((data + rest)[end] == data[end]);
            if data[end] != END_MARK {
                lemma_items_prefix(data, rest, end, read.push(value));
            }
        }
    }
}

proof fn lemma_entries_prefix(
    data: Seq<u8>,
    rest: Seq<u8>,
    pos: int,
    read: Seq<(Seq<char>, Value)>,
)
    requires
        0 <= pos,
    ensures
        entries_at(data, pos, read) is Some ==> entries_at(data + rest, pos, read) == entries_at(
            data,
            pos,
            read,
        ),
    decreases data.len() - pos, 1int,
{
    lemma_text_prefix(data, rest, pos);
    lemma_text_end(data, pos);
    if let Some((Value::Text { text, bytes }, middle)) = text_at(data, pos) {
        lemma_value_prefix(data, rest, middle);
        if let Some((value, end)) = value_at(data, middle) {
            if middle < end < data.len() {
                assert((data + rest)[end] == data[end]);
                if data[end] != END_MARK {
                    lemma_entries_prefix(data, rest, end, put(read, text, value));
                }
            }
        }
    }
}

/// The digest of a dictionary that begins within the first 65535 bytes is that of its
/// own bytes, whatever stands before and behind it. Left out is a dictionary for which
/// the first key of one, itself or within it, comes to stand at a multiple of 65536.
pub proof fn lemma_dictionary_digest(before: Seq<u8>, dictionary: Seq<u8>, rest: Seq<u8>)
    requires
        before.len() < 0xffff,
        value_at(dictionary, 0) matches Some((value, end)) && value is Dictionary && end
            == dictionary.len(),
        clear(value_starts(dictionary, 0), before.len() as int),
    ensures
        dictionary_at(before + dictionary + rest, before.len() as int + 1) matches Some((value, end)) && {
            &&& end == before.len() + dictionary.len()
            &&& value matches Value::Dictionary { entries, hash } && hash == sha1_of(dictionary)
            &&& plain(value) == plain(value_at(dictionary, 0).unwrap().0)
        },
{
    let by = before.len() as int;
    let head = before + dictionary;
    lemma_text_end(dictionary, 0);
    lemma_value_anywhere(before, dictionary, 0);
    assert(head[by] == dictionary[0]);
    assert(value_at(head, by) == dictionary_at(head, by + 1));
    assert((by + 1) % 0x10000 == by + 1);
    assert(head.subrange(by, by + dictionary.len()) =~= dictionary);
    lemma_dictionary_prefix(head, rest, by + 1);
}

/// A bencoded value.
#[allow(inconsistent_fields)]
#[derive(Debug)]
pub enum BEncodeType {
    BInt { value: u64 },
    BString { value: String, bytes: Vec<u8> },
    BList { entries: Vec<BEncodeType> },
    BDictionary { entries: Dictionary<BEncodeType>, hash: [u8; 20] },
}

/// What each value of a list means.
pub open spec fn models(list: Seq<BEncodeType>) -> Seq<Value>
    decreases list,
{
    if list.len() == 0 {
        Seq::empty()
    } else {
        models(list.drop_last()).push(list.last().model())
    }
}

/// Every value of a list is well formed.
pub open spec fn all_wf(list: Seq<BEncodeType>) -> bool
    decreases list,
{
    list.len() == 0 || (all_wf(list.drop_last()) && list.last().wf())
}

/// What the entries of a dictionary mean.
pub open spec fn entry_models(dictionary: Dictionary<BEncodeType>) -> Seq<(Seq<char>, Value)>
    decreases dictionary,
{
    let values = models(dictionary.values@);
    Seq::new(dictionary.keys@.len(), |i: int| (dictionary.keys@[i]@, values[i]))
}

impl BEncodeType {
    /// What the value means.
    pub open spec fn model(self) -> Value
        decreases self,
    {
        match self {
            BEncodeType::BInt { value } => Value::Int(value),
            BEncodeType::BString { value, bytes } => Value::Text { text: value@, bytes: bytes@ },
            BEncodeType::BList { entries } => Value::List(models(entries@)),
            BEncodeType::BDictionary { entries, hash } => Value::Dictionary {
                entries: entry_models(entries),
                hash: hash@,
            },
        }
    }

    /// No dictionary in the value holds a key twice.
    pub open spec fn wf(self) -> bool
        decreases self,
    {
        match self {
            BEncodeType::BInt { .. } => true,
            BEncodeType::BString { .. } => true,
            BEncodeType::BList { entries } => all_wf(entries@),
            BEncodeType::BDictionary { entries, .. } => entries.wf() && all_wf(entries.values@),
        }
    }
}

/// A list has as many meanings as values, each that of its value.
proof fn lemma_models(list: Seq<BEncodeType>)
    ensures
        models(list).len() == list.len(),
        forall|i: int| 0 <= i < list.len() ==> #[trigger] models(list)[i] == list[i].model(),
    decreases list.len(),
{
    if list.len() > 0 {
        lemma_models(list.drop_last());
        assert forall|i: int| 0 <= i < list.len() implies #[trigger] models(list)[i]
            == list[i].model() by {
            if i < list.len() - 1 {
                assert(list.drop_last()[i] == list[i]);
            }
        }
    }
}

/// A list is well formed where each of its values is.
proof fn lemma_all_wf(list: Seq<BEncodeType>)
    ensures
        all_wf(list) <==> forall|i: int| 0 <= i < list.len() ==> (#[trigger] list[i]).wf(),
    decreases list.len(),
{
    if list.len() > 0 {
        lemma_all_wf(list.drop_last());
        assert forall|i: int| 0 <= i < list.len() && all_wf(list) implies (#[trigger] list[i]).wf() by {
            if i < list.len() - 1 {
                assert(list.drop_last()[i] == list[i]);
            }
        }
        if forall|i: int| 0 <= i < list.len() ==> (#[trigger] list[i]).wf() {
            assert forall|i: int| 0 <= i < list.drop_last().len() implies (
            #[trigger] list.drop_last()[i]).wf() by {
                assert(list[i].wf());
            }
            assert(list[list.len() - 1].wf());
        }
    }
}

/// What pushing a value does to the meaning of a list.
proof fn lemma_models_push(list: Seq<BEncodeType>, value: BEncodeType)
    ensures
        models(list.push(value)) == models(list).push(value.model()),
        all_wf(list.push(value)) == (all_wf(list) && value.wf()),
{
    assert(list.push(value).drop_last() =~= list);
}

/// The keys of a dictionary's meaning are its keys: looking a key up there
/// gives the meaning of the value under the key.
proof fn lemma_entry_models(dictionary: Dictionary<BEncodeType>, key: Seq<char>)
    requires
        dictionary.wf(),
    ensures
        entry_models(dictionary).len() == dictionary.pairs().len(),
        forall|i: int| is_first(dictionary.pairs(), key, i) == is_first(entry_models(dictionary), key, i),
        has_key(dictionary.pairs(), key) == has_key(entry_models(dictionary), key),
        lookup(entry_models(dictionary), key) == (match lookup(dictionary.pairs(), key) {
            Some(value) => Some(value.model()),
            None => None,
        }),
{
    let pairs = dictionary.pairs();
    let entries = entry_models(dictionary);
    lemma_models(dictionary.values@);
    assert forall|i: int| is_first(pairs, key, i) == is_first(entries, key, i) by {
        if is_first(pairs, key, i) {
            assert forall|j: int| 0 <= j < i implies (#[trigger] entries[j]).0 != key by {
                assert(pairs[j].0 != key);
            }
        }
        if is_first(entries, key, i) {
            assert forall|j: int| 0 <= j < i implies (#[trigger] pairs[j]).0 != key by {
                assert(entries[j].0 != key);
            }
        }
    }
    if has_key(pairs, key) {
        let i = choose|i: int| is_first(pairs, key, i);
        assert(is_first(entries, key, i));
        lemma_first_is_unique(entries, key, i, choose|j: int| is_first(entries, key, j));
    }
    if has_key(entries, key) {
        let i = choose|i: int| is_first(entries, key, i);
        assert(is_first(pairs, key, i));
    }
}

/// Putting a value into a dictionary puts its meaning into the dictionary's.
proof fn lemma_entry_models_put(
    before: Dictionary<BEncodeType>,
    after: Dictionary<BEncodeType>,
    key: Seq<char>,
    value: BEncodeType,
)
    requires
        before.wf(),
        after.wf(),
        after.pairs() == put(before.pairs(), key, value),
    ensures
        entry_models(after) == put(entry_models(before), key, value.model()),
        all_wf(before.values@) && value.wf() ==> all_wf(after.values@),
{
    lemma_entry_models(before, key);
    lemma_models(before.values@);
    lemma_models(after.values@);
    lemma_all_wf(before.values@);
    lemma_all_wf(after.values@);
    let at = choose|i: int| is_first(before.pairs(), key, i);
    if has_key(before.pairs(), key) {
        lemma_first_is_unique(
            entry_models(before),
            key,
            at,
            choose|j: int| is_first(entry_models(before), key, j),
        );
    }
    assert forall|i: int| 0 <= i < after.pairs().len() implies entry_models(after)[i] == put(
        entry_models(before),
        key,
        value.model(),
    )[i] by {
        assert(after.pairs()[i].0 == after.keys@[i]@);
        assert(after.pairs()[i].1 == after.values@[i]);
        if i < before.pairs().len() {
            assert(before.pairs()[i].0 == before.keys@[i]@);
            assert(before.pairs()[i].1 == before.values@[i]);
        }
    }
    assert(entry_models(after) =~= put(entry_models(before), key, value.model()));
    if all_wf(before.values@) && value.wf() {
        assert forall|i: int| 0 <= i < after.values@.len() implies (#[trigger] after.values@[i]).wf() by {
            assert(after.pairs()[i].1 == after.values@[i]);
            if i < before.pairs().len() {
                assert(before.pairs()[i].1 == before.values@[i]);
            }
        }
    }
}

impl BEncodeType {
    /// Reads the byte string at the position.
    pub fn string(data: &[u8], position: &mut usize) -> (value: BEncodeType)
        requires
            text_at(data@, *old(position) as int) is Some,
        ensures
            value.wf(),
            text_at(data@, *old(position) as int) == Some((value.model(), *final(position) as int)),
    {
        BEncodeType::try_string(data, position).unwrap()
    }

    /// Reads a byte string at the position, or nothing where none stands there.
    pub fn try_string(data: &[u8], position: &mut usize) -> (value: Option<BEncodeType>)
        ensures
            match value {
                Some(v) => v.wf() && text_at(data@, *old(position) as int) == Some(
                    (v.model(), *final(position) as int),
                ),
                None => text_at(data@, *old(position) as int) is None,
            },
    {
        match BEncodeType::parse_string(data, position) {
            Some((value, bytes)) => Some(BEncodeType::BString { value, bytes }),
            None => None,
        }
    }

    fn parse_string(data: &[u8], position: &mut usize) -> (parsed: Option<(String, Vec<u8>)>)
        ensures
            match parsed {
                Some((value, bytes)) => text_at(data@, *old(position) as int) == Some(
                    (Value::Text { text: value@, bytes: bytes@ }, *final(position) as int),
                ),
                None => text_at(data@, *old(position) as int) is None,
            },
    {
        let start: usize = *position;
        let colon: usize = match find_byte(data, start, LENGTH_MARK) {
            Some(at) => at,
            None => return None,
        };
        let digits = copy_range(data, start, colon);
        let length: usize = match read_unsigned(digits.as_slice(), usize::MAX as u64) {
            Some(n) => n as usize,
            None => return None,
        };
        if length > data.len() - (colon + 1) {
            return None;
        }
        let bytes = copy_range(data, colon + 1, colon + 1 + length);
        *position = colon + 1 + length;
        Some((string_from_latin1(bytes.as_slice()), bytes))
    }

    /// Reads the number at the position, behind its `i`.
    pub fn integer(data: &[u8], position: &mut usize) -> (value: BEncodeType)
        requires
            int_at(data@, *old(position) as int) is Some,
        ensures
            value.wf(),
            int_at(data@, *old(position) as int) == Some((value.model(), *final(position) as int)),
    {
        BEncodeType::try_integer(data, position).unwrap()
    }

    /// Reads a number at the position, behind its `i`, or nothing where none
    /// stands there.
    pub fn try_integer(data: &[u8], position: &mut usize) -> (value: Option<BEncodeType>)
        ensures
            match value {
                Some(v) => v.wf() && int_at(data@, *old(position) as int) == Some(
                    (v.model(), *final(position) as int),
                ),
                None => int_at(data@, *old(position) as int) is None,
            },
    {
        let start: usize = *position;
        let end: usize = match find_byte(data, start, END_MARK) {
            Some(at) => at,
            None => return None,
        };
        let digits = copy_range(data, start, end);
        match read_unsigned(digits.as_slice(), u64::MAX) {
            Some(value) => {
                *position = end + 1;
                Some(BEncodeType::BInt { value })
            },
            None => None,
        }
    }

    /// Reads a value of any kind at the position, or nothing where none stands
    /// there.
    pub fn try_value(data: &[u8], position: &mut usize) -> (value: Option<BEncodeType>)
        requires
            data@.len() <= MAX_HASHED_LEN,
        ensures
            match value {
                Some(v) => v.wf() && value_at(data@, *old(position) as int) == Some(
                    (v.model(), *final(position) as int),
                ),
                None => value_at(data@, *old(position) as int) is None,
            },
        decreases data@.len() - *old(position), 0int,
    {
        if *position >= data.len() {
            return None;
        }
        let byte = data[*position];
        if byte == DICTIONARY_MARK {
            *position = *position + 1;
            BEncodeType::try_dictionary(data, position)
        } else if byte == LIST_MARK {
            *position = *position + 1;
            BEncodeType::try_list(data, position)
        } else if byte == INTEGER_MARK {
            *position = *position + 1;
            BEncodeType::try_integer(data, position)
        } else {
            BEncodeType::try_string(data, position)
        }
    }

    /// Reads the list at the position, behind its `l`.
    pub fn list(data: &[u8], position: &mut usize) -> (value: BEncodeType)
        requires
            data@.len() <= MAX_HASHED_LEN,
            list_at(data@, *old(position) as int) is Some,
        ensures
            value.wf(),
            list_at(data@, *old(position) as int) == Some((value.model(), *final(position) as int)),
    {
        BEncodeType::try_list(data, position).unwrap()
    }

    /// Reads a list at the position, behind its `l`, or nothing where none stands
    /// there.
    pub fn try_list(data: &[u8], position: &mut usize) -> (value: Option<BEncodeType>)
        requires
            data@.len() <= MAX_HASHED_LEN,
        ensures
            match value {
                Some(v) => v.wf() && list_at(data@, *old(position) as int) == Some(
                    (v.model(), *final(position) as int),
                ),
                None => list_at(data@, *old(position) as int) is None,
            },
        decreases data@.len() - *old(position), 1int,
    {
        let ghost start = *position as int;
        let mut entries: Vec<BEncodeType> = Vec::new();
        assert(models(entries@) =~= Seq::empty());
        loop
            invariant
                data@.len() <= MAX_HASHED_LEN,
                start == *old(position),
                start <= *position,
                *position == start || *position <= data@.len(),
                all_wf(entries@),
                items_at(data@, start, Seq::empty()) == items_at(
                    data@,
                    *position as int,
                    models(entries@),
                ),
            decreases data@.len() - *position,
        {
            proof {
                lemma_value_end(data@, *position as int);
            }
            match BEncodeType::try_value(data, position) {
                Some(item) => {
                    proof {
                        lemma_models_push(entries@, item);
                    }
                    entries.push(item);
                },
                None => return None,
            }
            if *position >= data.len() {
                return None;
            }
            if data[*position] == END_MARK {
                *position = *position + 1;
                return Some(BEncodeType::BList { entries });
            }
        }
    }

    /// Reads the dictionary at the position, behind its `d`.
    pub fn dictionary(data: &[u8], position: &mut usize) -> (value: BEncodeType)
        requires
            data@.len() <= MAX_HASHED_LEN,
            dictionary_at(data@, *old(position) as int) is Some,
        ensures
            value.wf(),
            dictionary_at(data@, *old(position) as int) == Some((value.model(), *final(position) as int)),
    {
        BEncodeType::try_dictionary(data, position).unwrap()
    }

    /// Reads a dictionary at the position, behind its `d`, or nothing where none
    /// stands there.
    pub fn try_dictionary(data: &[u8], position: &mut usize) -> (value: Option<BEncodeType>)
        requires
            data@.len() <= MAX_HASHED_LEN,
        ensures
            match value {
                Some(v) => v.wf() && v.model() is Dictionary && dictionary_at(
                    data@,
                    *old(position) as int,
                ) == Some((v.model(), *final(position) as int)),
                None => dictionary_at(data@, *old(position) as int) is None,
            },
        decreases data@.len() - *old(position), 1int,
    {
        let start: usize = *position;
        let low: usize = start % 0x10000;
        if low == 0 {
            return None;
        }
        let mut entries: Dictionary<BEncodeType> = Dictionary::new();
        assert(entry_models(entries) =~= Seq::empty()) by {
            assert(entries.pairs().len() == 0);
        }
        loop
            invariant
                data@.len() <= MAX_HASHED_LEN,
                start == *old(position),
                start <= *position,
                low == start % 0x10000,
                0 < low <= start,
                entries.wf(),
                all_wf(entries.values@),
                entries_at(data@, start as int, Seq::empty()) == entries_at(
                    data@,
                    *position as int,
                    entry_models(entries),
                ),
            decreases data@.len() - *position,
        {
            proof {
                lemma_text_end(data@, *position as int);
            }
            let key = match BEncodeType::parse_string(data, position) {
                Some((key, bytes)) => key,
                None => return None,
            };
            proof {
                lemma_value_end(data@, *position as int);
            }
            match BEncodeType::try_value(data, position) {
                Some(item) => {
                    let ghost before = entries;
                    let ghost key_text = key@;
                    entries.insert(key, item);
                    proof {
                        lemma_entry_models_put(before, entries, key_text, item);
                    }
                },
                None => return None,
            }
            if *position >= data.len() {
                return None;
            }
            if data[*position] == END_MARK {
                *position = *position + 1;
                let hashed = copy_range(data, low - 1, *position);
                let hash = sha1_digest(hashed.as_slice());
                return Some(BEncodeType::BDictionary { entries, hash });
            }
        }
    }

    /// The number; of any other value, the largest there is.
    pub fn get_int(&self) -> (value: u64)
        ensures
            value == int_of(self.model()),
    {
        match self {
            BEncodeType::BInt { value } => *value,
            _ => u64::MAX,
        }
    }

    /// The text of a string; of any other value, none.
    pub fn get_string(&self) -> (text: String)
        ensures
            text@ == text_of(self.model()),
    {
        match self {
            BEncodeType::BString { value, .. } => value.as_str().to_owned(),
            _ => String::new(),
        }
    }

    /// The bytes of a string; of any other value, none.
    pub fn get_string_bytes(&self) -> (bytes: Vec<u8>)
        ensures
            bytes@ == bytes_of(self.model()),
    {
        match self {
            BEncodeType::BString { bytes, .. } => copy_bytes(bytes.as_slice()),
            _ => Vec::new(),
        }
    }

    /// The entries of a list; of any other value, none.
    pub fn get_list(&self) -> (items: Vec<BEncodeType>)
        ensures
            models(items@) == items_of(self.model()),
            self.wf() ==> all_wf(items@),
    {
        match self {
            BEncodeType::BList { entries } => clone_list(entries),
            _ => {
                let items: Vec<BEncodeType> = Vec::new();
                assert(models(items@) =~= Seq::empty());
                items
            },
        }
    }

    /// The entries of a dictionary; of any other value, none.
    pub fn get_dictionary(&self) -> (dictionary: Dictionary<BEncodeType>)
        requires
            self.wf(),
        ensures
            dictionary.wf(),
            all_wf(dictionary.values@),
            entry_models(dictionary) == entries_of(self.model()),
    {
        match self {
            BEncodeType::BDictionary { entries, .. } => clone_entries(entries),
            _ => {
                let dictionary: Dictionary<BEncodeType> = Dictionary::new();
                assert(dictionary.pairs().len() == 0);
                assert(entry_models(dictionary) =~= Seq::empty());
                dictionary
            },
        }
    }

    /// The digest of a dictionary; of any other value, twenty zeros.
    pub fn get_dictionary_hash(&self) -> (hash: [u8; 20])
        ensures
            hash@ == hash_of(self.model()),
    {
        match self {
            BEncodeType::BDictionary { hash, .. } => *hash,
            _ => {
                let zeros: [u8; 20] = [0; 20];
                assert(zeros@ =~= Seq::new(20, |i: int| 0u8));
                zeros
            },
        }
    }

    /// The value under a key of a dictionary.
    pub fn entry(&self, key: &str) -> (value: Option<&BEncodeType>)
        requires
            self.wf(),
        ensures
            match value {
                Some(v) => v.wf() && lookup(entries_of(self.model()), key@) == Some(v.model()),
                None => lookup(entries_of(self.model()), key@) is None,
            },
    {
        match self {
            BEncodeType::BDictionary { entries, .. } => {
                proof {
                    lemma_entry_models(*entries, key@);
                    lemma_all_wf(entries.values@);
                }
                let found = entries.get(key);
                proof {
                    if has_key(entries.pairs(), key@) {
                        let i = choose|i: int| is_first(entries.pairs(), key@, i);
                        assert(entries.pairs()[i].1 == entries.values@[i]);
                    }
                }
                found
            },
            _ => None,
        }
    }
}

/// The text of a string; of any other value, none.
pub open spec fn text_of(value: Value) -> Seq<char> {
    match value {
        Value::Text { text, .. } => text,
        _ => Seq::empty(),
    }
}

/// The bytes of a string; of any other value, none.
pub open spec fn bytes_of(value: Value) -> Seq<u8> {
    match value {
        Value::Text { bytes, .. } => bytes,
        _ => Seq::empty(),
    }
}

/// The entries of a list; of any other value, none.
pub open spec fn items_of(value: Value) -> Seq<Value> {
    match value {
        Value::List(items) => items,
        _ => Seq::empty(),
    }
}

/// The number; of any other value, the largest there is.
pub open spec fn int_of(value: Value) -> u64 {
    match value {
        Value::Int(n) => n,
        _ => u64::MAX,
    }
}

/// The entries of a dictionary; of any other value, none.
pub open spec fn entries_of(value: Value) -> Seq<(Seq<char>, Value)> {
    match value {
        Value::Dictionary { entries, .. } => entries,
        _ => Seq::empty(),
    }
}

/// The digest of a dictionary; of any other value, twenty zeros.
pub open spec fn hash_of(value: Value) -> Seq<u8> {
    match value {
        Value::Dictionary { hash, .. } => hash,
        _ => Seq::new(20, |i: int| 0u8),
    }
}

impl Clone for BEncodeType {
    fn clone(&self) -> (copy: BEncodeType)
        ensures
            copy.model() == self.model(),
            self.wf() ==> copy.wf(),
        decreases self, 0int,
    {
        match self {
            BEncodeType::BInt { value } => BEncodeType::BInt { value: *value },
            BEncodeType::BString { value, bytes } => BEncodeType::BString {
                value: value.as_str().to_owned(),
                bytes: copy_bytes(bytes.as_slice()),
            },
            BEncodeType::BList { entries } => BEncodeType::BList { entries: clone_list(entries) },
            BEncodeType::BDictionary { entries, hash } => {
                let copy = clone_entries(entries);
                BEncodeType::BDictionary { entries: copy, hash: *hash }
            },
        }
    }
}

/// A copy of a list of values.
fn clone_list(list: &Vec<BEncodeType>) -> (copy: Vec<BEncodeType>)
    ensures
        copy@.len() == list@.len(),
        models(copy@) == models(list@),
        all_wf(list@) ==> all_wf(copy@),
    decreases list, 0int,
{
    let mut copy: Vec<BEncodeType> = Vec::new();
    let mut i: usize = 0;
    assert(list@.take(0) =~= Seq::empty());
    while i < list.len()
        invariant
            i <= list@.len(),
            copy@.len() == i,
            models(copy@) == models(list@.take(i as int)),
            all_wf(list@.take(i as int)) ==> all_wf(copy@),
        decreases list@.len() - i,
    {
        assert(decreases_to!(list@ => list@[i as int]));
        let item = list[i].clone();
        proof {
            lemma_models_push(copy@, item);
            lemma_models_push(list@.take(i as int), list@[i as int]);
            assert(list@.take(i + 1) =~= list@.take(i as int).push(list@[i as int]));
        }
        copy.push(item);
        i = i + 1;
    }
    assert(list@.take(i as int) =~= list@);
    copy
}

/// A copy of the entries of a dictionary.
fn clone_entries(dictionary: &Dictionary<BEncodeType>) -> (copy: Dictionary<BEncodeType>)
    ensures
        entry_models(copy) == entry_models(*dictionary),
        dictionary.wf() ==> copy.wf(),
        all_wf(dictionary.values@) ==> all_wf(copy.values@),
    decreases dictionary, 0int,
{
    let mut keys: Vec<String> = Vec::new();
    let mut i: usize = 0;
    while i < dictionary.keys.len()
        invariant
            i <= dictionary.keys@.len(),
            keys@.len() == i,
            forall|j: int| 0 <= j < i ==> (#[trigger] keys@[j])@ == dictionary.keys@[j]@,
        decreases dictionary.keys@.len() - i,
    {
        keys.push(dictionary.keys[i].as_str().to_owned());
        i = i + 1;
    }
    let copy = Dictionary { keys, values: clone_list(&dictionary.values) };
    assert(entry_models(copy) =~= entry_models(*dictionary));
    proof {
        if dictionary.wf() {
            assert forall|a: int, b: int| 0 <= a < b < copy.pairs().len() implies (
            #[trigger] copy.pairs()[a]).0 != (#[trigger] copy.pairs()[b]).0 by {
                assert(dictionary.pairs()[a].0 != dictionary.pairs()[b].0);
            }
        }
    }
    copy
}

/// What the metainfo says of a torrent's contents.
pub struct InfoValue {
    pub info_hash: Seq<u8>,
    pub length: u64,
    pub name: Seq<char>,
    pub piece_length: u64,
    pub files: Seq<(Seq<char>, u64)>,
    pub pieces: Seq<Seq<u8>>,
}

/// What a metainfo file says.
pub struct TorrentValue {
    pub announce: Seq<char>,
    pub announce_list: Seq<Seq<char>>,
    pub creation_date: Seq<char>,
    pub info: InfoValue,
}

/// A file entry with both a path and a length has a path that is not empty.
pub open spec fn file_ok(entry: Value) -> bool {
    match (lookup(entries_of(entry), "path"@), lookup(entries_of(entry), "length"@)) {
        (Some(path), Some(length)) => items_of(path).len() > 0,
        _ => true,
    }
}

/// The path and the length of a file entry that has both: the torrent's name, a
/// slash and the first component of the path.
pub open spec fn file_of(name: Seq<char>, entry: Value) -> Option<(Seq<char>, u64)> {
    match (lookup(entries_of(entry), "path"@), lookup(entries_of(entry), "length"@)) {
        (Some(path), Some(length)) => Some(
            (name + "/"@ + text_of(items_of(path)[0]), int_of(length)),
        ),
        _ => None,
    }
}

/// The files of a list of file entries; an entry without a path or without a
/// length is left out.
pub open spec fn files_of(name: Seq<char>, entries: Seq<Value>) -> Seq<(Seq<char>, u64)>
    decreases entries.len(),
{
    if entries.len() == 0 {
        Seq::empty()
    } else {
        let before = files_of(name, entries.drop_last());
        match file_of(name, entries.last()) {
            Some(file) => before.push(file),
            None => before,
        }
    }
}

/// The value is a dictionary with all that a torrent needs.
pub open spec fn info_ok(info: Value) -> bool {
    &&& info is Dictionary
    &&& lookup(entries_of(info), "name"@) is Some
    &&& lookup(entries_of(info), "piece length"@) is Some
    &&& lookup(entries_of(info), "pieces"@) is Some
    &&& match lookup(entries_of(info), "files"@) {
        Some(files) => forall|i: int|
            0 <= i < items_of(files).len() ==> file_ok(#[trigger] items_of(files)[i]),
        None => true,
    }
}

/// What the info dictionary says: a torrent without a list of files is one file
/// under the torrent's own name.
pub open spec fn info_of(info: Value) -> InfoValue {
    let entries = entries_of(info);
    let name = text_of(lookup(entries, "name"@).unwrap());
    let length = match lookup(entries, "length"@) {
        Some(length) => int_of(length),
        None => 0,
    };
    InfoValue {
        info_hash: hash_of(info),
        length,
        name,
        piece_length: int_of(lookup(entries, "piece length"@).unwrap()),
        files: match lookup(entries, "files"@) {
            Some(files) => files_of(name, items_of(files)),
            None => seq![(name, length)],
        },
        pieces: chunks_of_20(bytes_of(lookup(entries, "pieces"@).unwrap())),
    }
}

/// The text of each entry.
pub open spec fn texts_of(entries: Seq<Value>) -> Seq<Seq<char>> {
    Seq::new(entries.len(), |i: int| text_of(entries[i]))
}

/// The text under a key, or none.
pub open spec fn text_under(entries: Seq<(Seq<char>, Value)>, key: Seq<char>) -> Seq<char> {
    match lookup(entries, key) {
        Some(value) => text_of(value),
        None => Seq::empty(),
    }
}

/// What a metainfo file says, or nothing where it is not one.
pub open spec fn torrent_of(data: Seq<u8>) -> Option<TorrentValue> {
    if data.len() == 0 || data[0] != DICTIONARY_MARK {
        None
    } else {
        match dictionary_at(data, 1) {
            Some((value, end)) => {
                let entries = entries_of(value);
                match lookup(entries, "info"@) {
                    Some(info) => if info_ok(info) {
                        Some(
                            TorrentValue {
                                announce: text_under(entries, "announce"@),
                                announce_list: match lookup(entries, "announce-list"@) {
                                    Some(list) => texts_of(items_of(list)),
                                    None => Seq::empty(),
                                },
                                creation_date: text_under(entries, "creation date"@),
                                info: info_of(info),
                            },
                        )
                    } else {
                        None
                    },
                    None => None,
                }
            },
            None => None,
        }
    }
}

/// What a torrent holds: its files, and the digests of its pieces.
pub struct TorrentInfo {
    info_hash: [u8; 20],
    length: u64,
    name: String,
    piece_length: u64,
    files: Vec<(String, u64)>,
    pieces: Vec<Vec<u8>>,
}

impl TorrentInfo {
    /// What the info says.
    pub closed spec fn value(self) -> InfoValue {
        InfoValue {
            info_hash: self.info_hash@,
            length: self.length,
            name: self.name@,
            piece_length: self.piece_length,
            files: named_sizes(self.files@),
            pieces: contents(self.pieces@),
        }
    }

    /// Reads the info dictionary, or nothing where something is missing.
    pub fn try_new(info: &BEncodeType) -> (parsed: Option<TorrentInfo>)
        requires
            info.wf(),
        ensures
            match parsed {
                Some(torrent) => info_ok(info.model()) && torrent.value() == info_of(info.model()),
                None => !info_ok(info.model()),
            },
    {
        if !matches!(info, BEncodeType::BDictionary { .. }) {
            return None;
        }
        let info_hash = info.get_dictionary_hash();
        let length: u64 = match info.entry("length") {
            Some(length) => length.get_int(),
            None => 0,
        };
        let name = match info.entry("name") {
            Some(name) => name.get_string(),
            None => return None,
        };
        let piece_length: u64 = match info.entry("piece length") {
            Some(piece_length) => piece_length.get_int(),
            None => return None,
        };
        let pieces = match info.entry("pieces") {
            Some(pieces) => split_chunks(pieces.get_string_bytes().as_slice()),
            None => return None,
        };
        let files = match info.entry("files") {
            Some(files) => match read_files(&name, files) {
                Some(files) => files,
                None => return None,
            },
            None => {
                let mut files: Vec<(String, u64)> = Vec::new();
                files.push((name.as_str().to_owned(), length));
                assert(named_sizes(files@) =~= seq![(name@, length)]);
                files
            },
        };
        Some(
            TorrentInfo {
                info_hash,
                length,
                name,
                piece_length,
                files,
                pieces,
            },
        )
    }

    /// Reads the info dictionary.
    pub fn new(info: &BEncodeType) -> (torrent: TorrentInfo)
        requires
            info.wf(),
            info_ok(info.model()),
        ensures
            torrent.value() == info_of(info.model()),
    {
        TorrentInfo::try_new(info).unwrap()
    }

    /// The digest that the torrent is known by.
    pub fn info_hash(&self) -> (hash: &[u8; 20])
        ensures
            hash@ == self.value().info_hash,
    {
        &self.info_hash
    }

    /// The length of a torrent of one file; zero where the metainfo gives none.
    pub fn length(&self) -> (length: u64)
        ensures
            length == self.value().length,
    {
        self.length
    }

    /// The torrent's name.
    pub fn name(&self) -> (name: &str)
        ensures
            name@ == self.value().name,
    {
        self.name.as_str()
    }

    /// The number of bytes in a piece.
    pub fn piece_length(&self) -> (length: u64)
        ensures
            length == self.value().piece_length,
    {
        self.piece_length
    }

    /// The path and the length of each file.
    pub fn files(&self) -> (files: &[(String, u64)])
        ensures
            named_sizes(files@) == self.value().files,
    {
        self.files.as_slice()
    }

    /// The digest of each piece.
    pub fn pieces(&self) -> (pieces: &[Vec<u8>])
        ensures
            contents(pieces@) == self.value().pieces,
    {
        self.pieces.as_slice()
    }
}

/// Reads a list of file entries, or nothing where one of them has an empty path.
fn read_files(name: &String, files: &BEncodeType) -> (read: Option<Vec<(String, u64)>>)
    requires
        files.wf(),
    ensures
        match read {
            Some(list) => (forall|i: int|
                0 <= i < items_of(files.model()).len() ==> file_ok(
                    #[trigger] items_of(files.model())[i],
                )) && named_sizes(list@) == files_of(name@, items_of(files.model())),
            None => exists|i: int|
                0 <= i < items_of(files.model()).len() && !file_ok(
                    #[trigger] items_of(files.model())[i],
                ),
        },
{
    let entries = files.get_list();
    let ghost values = items_of(files.model());
    let mut list: Vec<(String, u64)> = Vec::new();
    proof {
        lemma_models(entries@);
        lemma_all_wf(entries@);
        assert(values.take(0) =~= Seq::empty());
        assert(named_sizes(list@) =~= Seq::empty());
    }
    let mut i: usize = 0;
    while i < entries.len()
        invariant
            i <= entries@.len(),
            values == items_of(files.model()),
            values.len() == entries@.len(),
            forall|k: int| 0 <= k < entries@.len() ==> #[trigger] values[k] == entries@[k].model(),
            forall|k: int| 0 <= k < entries@.len() ==> (#[trigger] entries@[k]).wf(),
            forall|k: int| 0 <= k < i ==> file_ok(#[trigger] values[k]),
            named_sizes(list@) == files_of(name@, values.take(i as int)),
        decreases entries@.len() - i,
    {
        let ghost value = values[i as int];
        proof {
            assert(values.take(i + 1).drop_last() =~= values.take(i as int));
        }
        let entry = &entries[i];
        if let (Some(path), Some(length)) = (entry.entry("path"), entry.entry("length")) {
            let components = path.get_list();
            proof {
                lemma_models(components@);
            }
            if components.len() == 0 {
                assert(!file_ok(values[i as int]));
                return None;
            }
            let full_path = concat(concat(name.as_str(), "/").as_str(), components[0].get_string().as_str());
            let ghost before = list@;
            list.push((full_path, length.get_int()));
            assert(named_sizes(list@) =~= named_sizes(before).push(
                (list@.last().0@, list@.last().1),
            ));
        }
        i = i + 1;
    }
    assert(values.take(i as int) =~= values);
    Some(list)
}

/// What a metainfo file says.
pub struct ParsedTorrent {
    announce: String,
    announce_list: Vec<String>,
    creation_date: String,
    info: TorrentInfo,
}

impl ParsedTorrent {
    /// What the file says.
    pub closed spec fn value(self) -> TorrentValue {
        TorrentValue {
            announce: self.announce@,
            announce_list: texts(self.announce_list@),
            creation_date: self.creation_date@,
            info: self.info.value(),
        }
    }

    /// Reads a metainfo file, or nothing where it is not one.
    pub fn try_new(data: Vec<u8>) -> (parsed: Option<ParsedTorrent>)
        requires
            data@.len() <= MAX_HASHED_LEN,
        ensures
            match parsed {
                Some(torrent) => torrent_of(data@) == Some(torrent.value()),
                None => torrent_of(data@) is None,
            },
    {
        if data.len() == 0 || data[0] != DICTIONARY_MARK {
            return None;
        }
        let mut position: usize = 1;
        let root = match BEncodeType::try_dictionary(data.as_slice(), &mut position) {
            Some(root) => root,
            None => return None,
        };
        let announce = match root.entry("announce") {
            Some(entry) => entry.get_string(),
            None => String::new(),
        };
        let announce_list = match root.entry("announce-list") {
            Some(entry) => read_texts(entry),
            None => {
                let list: Vec<String> = Vec::new();
                assert(texts(list@) =~= Seq::empty());
                list
            },
        };
        let creation_date = match root.entry("creation date") {
            Some(entry) => entry.get_string(),
            None => String::new(),
        };
        let info = match root.entry("info") {
            Some(entry) => match TorrentInfo::try_new(entry) {
                Some(info) => info,
                None => return None,
            },
            None => return None,
        };
        Some(ParsedTorrent { announce, announce_list, creation_date, info })
    }

    /// Reads a metainfo file.
    pub fn new(data: Vec<u8>) -> (torrent: ParsedTorrent)
        requires
            data@.len() <= MAX_HASHED_LEN,
            torrent_of(data@) is Some,
        ensures
            torrent_of(data@) == Some(torrent.value()),
    {
        ParsedTorrent::try_new(data).unwrap()
    }

    /// The tracker.
    pub fn announce(&self) -> (announce: &String)
        ensures
            announce@ == self.value().announce,
    {
        &self.announce
    }

    /// The further trackers.
    pub fn announce_list(&self) -> (list: &Vec<String>)
        ensures
            texts(list@) == self.value().announce_list,
    {
        &self.announce_list
    }

    /// When the torrent was made.
    pub fn creation_date(&self) -> (date: &String)
        ensures
            date@ == self.value().creation_date,
    {
        &self.creation_date
    }

    /// What the torrent holds.
    pub fn info(&self) -> (info: &TorrentInfo)
        ensures
            info.value() == self.value().info,
    {
        &self.info
    }

    /// The torrent's name.
    pub fn get_name(&self) -> (name: String)
        ensures
            name@ == self.value().info.name,
    {
        self.info.name.as_str().to_owned()
    }

    /// The path and the length of each file.
    pub fn get_files(&self) -> (files: &Vec<(String, u64)>)
        ensures
            named_sizes(files@) == self.value().info.files,
    {
        &self.info.files
    }
}

/// The texts of a list.
fn read_texts(entry: &BEncodeType) -> (read: Vec<String>)
    requires
        entry.wf(),
    ensures
        texts(read@) == texts_of(items_of(entry.model())),
{
    let list = entry.get_list();
    let ghost values = items_of(entry.model());
    let mut read: Vec<String> = Vec::new();
    proof {
        lemma_models(list@);
    }
    let mut i: usize = 0;
    while i < list.len()
        invariant
            i <= list@.len(),
            values.len() == list@.len(),
            forall|k: int| 0 <= k < list@.len() ==> #[trigger] values[k] == list@[k].model(),
            read@.len() == i,
            forall|k: int| 0 <= k < i ==> (#[trigger] read@[k])@ == text_of(values[k]),
        decreases list@.len() - i,
    {
        let ghost value = values[i as int];
        read.push(list[i].get_string());
        i = i + 1;
    }
    assert(texts(read@) =~= texts_of(values));
    read
}

} // verus!
