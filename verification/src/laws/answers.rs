//! The values of the smaller reader, and what is made of answers and metainfo files that
//! are read by it.
use vstd::prelude::*;

use crate::address::PeerAddress;
use crate::dictionary::{lemma_put, lookup, put};
use crate::engine::tracker::{
    TrackerState, answer_of, answer_peers, bytes_under, peers_v4, tracker_answered,
};
use crate::engine::transfer::TransferProgress;
use crate::hashing::sha1_of;
use crate::laws::text::{ascii_bytes, lemma_decimal, lemma_numbers_are_read_back};
use crate::laws::trackers::{
    all_written, lemma_addresses_v4_are_read_back, lemma_answer_is_noted,
};
use crate::parser::{
    Value, dictionary_at, entries_at, entries_of, file_of, file_ok, files_of, info_of, info_ok,
    items_at, items_of, lemma_text_anywhere, text_at, text_of, torrent_of, value_at,
};
use crate::scan::{chunks_of_20, find_from, lemma_find_from};
use crate::text::{decimal, latin1};

verus! {

/// A value that can be written.
pub enum Tree {
    Int(u64),
    Text(Seq<u8>),
    List(Seq<Tree>),
    Dictionary(Seq<(Seq<u8>, Tree)>),
}

/// A byte string as it is written: the number of its bytes, a colon, and the bytes.
pub open spec fn text_written(bytes: Seq<u8>) -> Seq<u8> {
    ascii_bytes(decimal(bytes.len())).push(58) + bytes
}

/// A value as it is written: a number between `i` and `e`, a list between `l` and `e`, a
/// dictionary between `d` and `e`.
pub open spec fn written(tree: Tree) -> Seq<u8>
    decreases tree,
{
    match tree {
        Tree::Int(n) => seq![105u8] + ascii_bytes(decimal(n as nat)) + seq![101u8],
        Tree::Text(bytes) => text_written(bytes),
        Tree::List(items) => seq![108u8] + items_written(items) + seq![101u8],
        Tree::Dictionary(entries) => seq![100u8] + entries_written(entries) + seq![101u8],
    }
}

/// The items of a list as they are written, one after the other.
pub open spec fn items_written(items: Seq<Tree>) -> Seq<u8>
    decreases items,
{
    if items.len() == 0 {
        Seq::empty()
    } else {
        written(items[0]) + items_written(items.skip(1))
    }
}

/// The entries of a dictionary as they are written, each with its key first.
pub open spec fn entries_written(entries: Seq<(Seq<u8>, Tree)>) -> Seq<u8>
    decreases entries,
{
    if entries.len() == 0 {
        Seq::empty()
    } else {
        text_written(entries[0].0) + written(entries[0].1) + entries_written(entries.skip(1))
    }
}

/// What a value means: each byte of a text is one character, and a dictionary keeps the
/// digest of its own bytes.
pub open spec fn meaning(tree: Tree) -> Value
    decreases tree,
{
    match tree {
        Tree::Int(n) => Value::Int(n),
        Tree::Text(bytes) => Value::Text { text: latin1(bytes), bytes },
        Tree::List(items) => Value::List(items_meaning(items)),
        Tree::Dictionary(entries) => Value::Dictionary {
            entries: entries_meaning(entries, Seq::empty()),
            hash: sha1_of(written(tree)),
        },
    }
}

/// What the items of a list mean.
pub open spec fn items_meaning(items: Seq<Tree>) -> Seq<Value>
    decreases items,
{
    if items.len() == 0 {
        Seq::empty()
    } else {
        seq![meaning(items[0])] + items_meaning(items.skip(1))
    }
}

/// What the entries of a dictionary mean, put one after the other behind those before.
pub open spec fn entries_meaning(
    entries: Seq<(Seq<u8>, Tree)>,
    before: Seq<(Seq<char>, Value)>,
) -> Seq<(Seq<char>, Value)>
    decreases entries,
{
    if entries.len() == 0 {
        before
    } else {
        entries_meaning(
            entries.skip(1),
            put(before, latin1(entries[0].0), meaning(entries[0].1)),
        )
    }
}

/// The value can be read where it begins at `at`: its byte strings can be counted, no
/// list and no dictionary is empty, and each dictionary begins among the first 65535
/// bytes.
pub open spec fn plain_at(tree: Tree, at: int) -> bool
    decreases tree,
{
    match tree {
        Tree::Int(n) => true,
        Tree::Text(bytes) => bytes.len() <= usize::MAX,
        Tree::List(items) => items.len() > 0 && items_plain_at(items, at + 1),
        Tree::Dictionary(entries) => entries.len() > 0 && 0 <= at < 0xFFFF && entries_plain_at(
            entries,
            at + 1,
        ),
    }
}

/// The items can be read where they begin at `at`.
pub open spec fn items_plain_at(items: Seq<Tree>, at: int) -> bool
    decreases items,
{
    items.len() == 0 || (plain_at(items[0], at) && items_plain_at(
        items.skip(1),
        at + written(items[0]).len(),
    ))
}

/// The entries can be read where they begin at `at`.
pub open spec fn entries_plain_at(entries: Seq<(Seq<u8>, Tree)>, at: int) -> bool
    decreases entries,
{
    entries.len() == 0 || (entries[0].0.len() <= usize::MAX && plain_at(
        entries[0].1,
        at + text_written(entries[0].0).len(),
    ) && entries_plain_at(
        entries.skip(1),
        at + text_written(entries[0].0).len() + written(entries[0].1).len(),
    ))
}

/// A byte string is read as it is written, whatever follows.
pub proof fn lemma_text_is_read(bytes: Seq<u8>, rest: Seq<u8>)
    requires
        bytes.len() <= usize::MAX,
    ensures
        text_at(text_written(bytes) + rest, 0) == Some(
            (Value::Text { text: latin1(bytes), bytes }, text_written(bytes).len() as int),
        ),
        48 <= text_written(bytes)[0] <= 57,
        text_written(bytes).len() > 0,
{
    let digits = ascii_bytes(decimal(bytes.len()));
    let data = text_written(bytes) + rest;
    lemma_decimal(bytes.len());
    lemma_numbers_are_read_back(bytes.len(), usize::MAX as nat);
    lemma_find_from(data, 0, 58);
    let colon = digits.len() as int;
    assert forall|i: int| 0 <= i < colon implies 48 <= #[trigger] data[i] <= 57 by {
        assert('0' <= decimal(bytes.len())[i] <= '9');
        assert(data[i] == digits[i]);
    }
    assert(data[colon] == 58);
    assert(find_from(data, 0, 58) == Some(colon));
    assert(data.subrange(0, colon) =~= digits);
    assert(data.subrange(colon + 1, colon + 1 + bytes.len()) =~= bytes);
    assert(text_written(bytes)[0] == data[0]);
}

proof fn lemma_int_is_read(before: Seq<u8>, n: u64, rest: Seq<u8>)
    ensures
        value_at(before + written(Tree::Int(n)) + rest, before.len() as int) == Some(
            (Value::Int(n), (before.len() + written(Tree::Int(n)).len()) as int),
        ),
{
    let digits = ascii_bytes(decimal(n as nat));
    let data = before + written(Tree::Int(n)) + rest;
    let at = before.len() as int;
    lemma_decimal(n as nat);
    lemma_numbers_are_read_back(n as nat, u64::MAX as nat);
    lemma_find_from(data, at + 1, 101);
    let end = at + 1 + digits.len();
    assert forall|i: int| at < i < end implies 48 <= #[trigger] data[i] <= 57 by {
        assert('0' <= decimal(n as nat)[i - at - 1] <= '9');
        assert(data[i] == digits[i - at - 1]);
    }
    assert(data[at] == 105);
    assert(data[end] == 101);
    assert(find_from(data, at + 1, 101) == Some(end));
    assert(data.subrange(at + 1, end) =~= digits);
}

proof fn lemma_begins(tree: Tree, at: int)
    requires
        plain_at(tree, at),
    ensures
        written(tree).len() > 0,
        written(tree)[0] != 101,
        tree is Text ==> 48 <= written(tree)[0] <= 57,
{
    match tree {
        Tree::Text(bytes) => lemma_text_is_read(bytes, Seq::empty()),
        _ => {},
    }
}

/// A value is read as it is written, wherever it stands and whatever follows.
#[verifier::rlimit(40)]
pub proof fn lemma_value_is_read(before: Seq<u8>, tree: Tree, rest: Seq<u8>)
    requires
        plain_at(tree, before.len() as int),
    ensures
        value_at(before + written(tree) + rest, before.len() as int) == Some(
            (meaning(tree), (before.len() + written(tree).len()) as int),
        ),
    decreases tree,
{
    let data = before + written(tree) + rest;
    let at = before.len() as int;
    lemma_begins(tree, at);
    assert(data[at] == written(tree)[0]);
    match tree {
        Tree::Int(n) => lemma_int_is_read(before, n, rest),
        Tree::Text(bytes) => {
            lemma_text_is_read(bytes, rest);
            lemma_text_anywhere(before, written(tree) + rest, 0);
            assert(data =~= before + (written(tree) + rest));
        },
        Tree::List(items) => {
            let head = before.push(108);
            lemma_items_are_read(head, items, rest, Seq::empty());
            assert(data =~= head + items_written(items) + seq![101u8] + rest);
            assert(Seq::<Value>::empty() + items_meaning(items) =~= items_meaning(items));
        },
        Tree::Dictionary(entries) => {
            let head = before.push(100);
            lemma_entries_are_read(head, entries, rest, Seq::empty());
            assert(data =~= head + entries_written(entries) + seq![101u8] + rest);
            let end = at + written(tree).len();
            assert((at + 1) % 0x10000 == at + 1);
            assert(data.subrange(at, end) =~= written(tree));
        },
    }
}

proof fn lemma_items_are_read(before: Seq<u8>, items: Seq<Tree>, rest: Seq<u8>, read: Seq<Value>)
    requires
        items.len() > 0,
        items_plain_at(items, before.len() as int),
    ensures
        items_at(
            before + items_written(items) + seq![101u8] + rest,
            before.len() as int,
            read,
        ) == Some(
            (
                read + items_meaning(items),
                (before.len() + items_written(items).len() + 1) as int,
            ),
        ),
    decreases items,
{
    let data = before + items_written(items) + seq![101u8] + rest;
    let at = before.len() as int;
    let first = written(items[0]);
    let others = items.skip(1);
    let tail = items_written(others) + seq![101u8] + rest;
    lemma_begins(items[0], at);
    lemma_value_is_read(before, items[0], tail);
    assert(data =~= before + first + tail);
    let end = at + first.len();
    if others.len() == 0 {
        assert(data[end] == 101);
        assert(items_meaning(others) =~= Seq::empty());
        assert(read.push(meaning(items[0])) =~= read + items_meaning(items));
    } else {
        assert(items_plain_at(others, end));
        lemma_begins(others[0], end);
        assert(data[end] == written(others[0])[0]) by {
            assert(items_written(others)[0] == written(others[0])[0]);
            assert(tail[0] == items_written(others)[0]);
        }
        lemma_items_are_read(before + first, others, rest, read.push(meaning(items[0])));
        assert(data =~= (before + first) + items_written(others) + seq![101u8] + rest);
        assert(read.push(meaning(items[0])) + items_meaning(others) =~= read + items_meaning(
            items,
        ));
    }
}

proof fn lemma_entries_are_read(
    before: Seq<u8>,
    entries: Seq<(Seq<u8>, Tree)>,
    rest: Seq<u8>,
    read: Seq<(Seq<char>, Value)>,
)
    requires
        entries.len() > 0,
        entries_plain_at(entries, before.len() as int),
    ensures
        entries_at(
            before + entries_written(entries) + seq![101u8] + rest,
            before.len() as int,
            read,
        ) == Some(
            (
                entries_meaning(entries, read),
                (before.len() + entries_written(entries).len() + 1) as int,
            ),
        ),
    decreases entries,
{
    let data = before + entries_written(entries) + seq![101u8] + rest;
    let at = before.len() as int;
    let key = text_written(entries[0].0);
    let value = written(entries[0].1);
    let others = entries.skip(1);
    let tail = entries_written(others) + seq![101u8] + rest;
    lemma_begins(entries[0].1, at + key.len());
    lemma_text_is_read(entries[0].0, value + tail);
    lemma_text_anywhere(before, key + (value + tail), 0);
    assert(data =~= before + (key + (value + tail)));
    lemma_value_is_read(before + key, entries[0].1, tail);
    assert(data =~= (before + key) + value + tail);
    let end = at + key.len() + value.len();
    let after = put(read, latin1(entries[0].0), meaning(entries[0].1));
    if others.len() == 0 {
        assert(data[end] == 101);
        assert(entries_meaning(others, after) == after);
    } else {
        assert(entries_plain_at(others, end));
        lemma_text_is_read(others[0].0, Seq::empty());
        assert(data[end] == text_written(others[0].0)[0]) by {
            assert(entries_written(others)[0] == text_written(others[0].0)[0]);
            assert(tail[0] == entries_written(others)[0]);
        }
        lemma_entries_are_read(before + key + value, others, rest, after);
        assert(data =~= (before + key + value) + entries_written(others) + seq![101u8] + rest);
    }
}

/// The entries of a dictionary whose keys are ASCII texts.
pub open spec fn named(entries: Seq<(Seq<char>, Tree)>) -> Seq<(Seq<u8>, Tree)> {
    Seq::new(entries.len(), |i: int| (ascii_bytes(entries[i].0), entries[i].1))
}

/// The text consists of ASCII characters.
pub open spec fn is_ascii(text: Seq<char>) -> bool {
    forall|i: int| 0 <= i < text.len() ==> 0 <= (#[trigger] text[i]) as int && text[i] as int <= 127
}

proof fn lemma_ascii(text: Seq<char>)
    requires
        is_ascii(text),
    ensures
        latin1(ascii_bytes(text)) == text,
{
    assert forall|i: int| 0 <= i < text.len() implies latin1(ascii_bytes(text))[i] == text[i] by {
        let c = text[i];
        assert(0 <= c as int <= 127);
        assert(c as u8 as int == c as int);
        assert(c as u8 as char as int == c as int);
    }
    assert(latin1(ascii_bytes(text)) =~= text);
}

/// The keys are ASCII texts.
pub open spec fn keys_ascii(entries: Seq<(Seq<char>, Tree)>) -> bool {
    forall|i: int| 0 <= i < entries.len() ==> is_ascii((#[trigger] entries[i]).0)
}

proof fn lemma_absent(
    entries: Seq<(Seq<char>, Tree)>,
    before: Seq<(Seq<char>, Value)>,
    key: Seq<char>,
)
    requires
        keys_ascii(entries),
        forall|i: int| 0 <= i < entries.len() ==> (#[trigger] entries[i]).0 != key,
    ensures
        lookup(entries_meaning(named(entries), before), key) == lookup(before, key),
    decreases entries.len(),
{
    if entries.len() > 0 {
        let others = entries.skip(1);
        assert(named(entries).skip(1) =~= named(others));
        assert(is_ascii(entries[0].0));
        lemma_ascii(entries[0].0);
        let after = put(before, entries[0].0, meaning(entries[0].1));
        lemma_put(before, entries[0].0, meaning(entries[0].1));
        assert forall|i: int| 0 <= i < others.len() implies (#[trigger] others[i]).0 != key
            && is_ascii(others[i].0) by {
            assert(others[i] == entries[i + 1]);
        }
        lemma_absent(others, after, key);
    }
}

proof fn lemma_present(entries: Seq<(Seq<char>, Tree)>, before: Seq<(Seq<char>, Value)>, k: int)
    requires
        keys_ascii(entries),
        0 <= k < entries.len(),
        forall|i: int| k < i < entries.len() ==> (#[trigger] entries[i]).0 != entries[k].0,
    ensures
        lookup(entries_meaning(named(entries), before), entries[k].0) == Some(
            meaning(entries[k].1),
        ),
    decreases entries.len(),
{
    let others = entries.skip(1);
    assert(named(entries).skip(1) =~= named(others));
    assert(is_ascii(entries[0].0));
    lemma_ascii(entries[0].0);
    let after = put(before, entries[0].0, meaning(entries[0].1));
    lemma_put(before, entries[0].0, meaning(entries[0].1));
    assert forall|i: int| 0 <= i < others.len() implies is_ascii((#[trigger] others[i]).0) && (i
        >= k ==> others[i].0 != entries[k].0) by {
        assert(others[i] == entries[i + 1]);
    }
    if k == 0 {
        lemma_absent(others, after, entries[0].0);
    } else {
        assert(others[k - 1] == entries[k]);
        lemma_present(others, after, k - 1);
    }
}

/// Under a key of a dictionary the last value that was written with that key is found,
/// and nothing under a key that was not written.
pub proof fn lemma_dictionary_by_key(entries: Seq<(Seq<char>, Tree)>, key: Seq<char>, k: int)
    requires
        keys_ascii(entries),
    ensures
        ({
            let value = meaning(Tree::Dictionary(named(entries)));
            &&& 0 <= k < entries.len() && entries[k].0 == key && (forall|i: int|
                k < i < entries.len() ==> (#[trigger] entries[i]).0 != key) ==> lookup(
                entries_of(value),
                key,
            ) == Some(meaning(entries[k].1))
            &&& (forall|i: int| 0 <= i < entries.len() ==> (#[trigger] entries[i]).0 != key)
                ==> lookup(entries_of(value), key) is None
        }),
{
    if forall|i: int| 0 <= i < entries.len() ==> (#[trigger] entries[i]).0 != key {
        lemma_absent(entries, Seq::empty(), key);
    }
    if 0 <= k < entries.len() && entries[k].0 == key && (forall|i: int|
        k < i < entries.len() ==> (#[trigger] entries[i]).0 != key) {
        lemma_present(entries, Seq::empty(), k);
    }
}

/// A tracker's answer: how long it wants to be left alone, and addresses of both
/// versions.
pub open spec fn answer_tree(interval: u64, v4: Seq<u8>, v6: Seq<u8>) -> Tree {
    Tree::Dictionary(
        named(
            seq![
                ("interval"@, Tree::Int(interval)),
                ("peers"@, Tree::Text(v4)),
                ("peers6"@, Tree::Text(v6)),
            ],
        ),
    )
}

/// A tracker that answers with a time and with addresses is understood: the peers are
/// those that it wrote, and it is left alone for that time, or for 120 seconds where it
/// wants more.
pub proof fn lemma_answer_is_understood(
    tracker: TrackerState,
    progress: TransferProgress,
    interval: u64,
    addresses: Seq<PeerAddress>,
    rest: Seq<u8>,
    now: u128,
)
    requires
        forall|i: int| 0 <= i < addresses.len() ==> (#[trigger] addresses[i]) is V4,
        plain_at(answer_tree(interval, all_written(addresses), Seq::empty()), 0),
    ensures
        ({
            let body = written(answer_tree(interval, all_written(addresses), Seq::empty())) + rest;
            answer_of(body) matches Some(answer) && {
                &&& answer_peers(answer) == addresses
                &&& tracker_answered(tracker, progress, answer, now).reannounce_rate == Some(
                    if interval < 120 {
                        interval
                    } else {
                        120
                    },
                )
            }
        }),
{
    let v4 = all_written(addresses);
    let v6 = Seq::<u8>::empty();
    let tree = answer_tree(interval, v4, v6);
    let body = written(tree) + rest;
    let fields = seq![
        ("interval"@, Tree::Int(interval)),
        ("peers"@, Tree::Text(v4)),
        ("peers6"@, Tree::Text(v6)),
    ];
    lemma_value_is_read(Seq::empty(), tree, rest);
    assert(Seq::<u8>::empty() + written(tree) + rest =~= body);
    assert(body[0] == 100);
    assert(dictionary_at(body, 1) == Some((meaning(tree), written(tree).len() as int)));
    lemma_answer_keys();
    assert(keys_ascii(fields));
    lemma_dictionary_by_key(fields, "interval"@, 0);
    lemma_dictionary_by_key(fields, "peers"@, 1);
    lemma_dictionary_by_key(fields, "peers6"@, 2);
    let answer = meaning(tree);
    assert(bytes_under(answer, "peers"@) == v4);
    assert(bytes_under(answer, "peers6"@) == v6);
    lemma_addresses_v4_are_read_back(addresses);
    lemma_answer_is_noted(tracker, progress, answer, now);
    assert(answer_peers(answer) =~= peers_v4(v4));
}

proof fn lemma_answer_keys()
    ensures
        "interval"@ != "peers"@,
        "interval"@ != "peers6"@,
        "peers"@ != "peers6"@,
        is_ascii("interval"@),
        is_ascii("peers"@),
        is_ascii("peers6"@),
{
    reveal_strlit("interval");
    reveal_strlit("peers");
    reveal_strlit("peers6");
    assert("interval"@.len() == 8 && "peers"@.len() == 5 && "peers6"@.len() == 6);
}

/// Texts, given by their bytes, as the items of a list.
pub open spec fn text_trees(texts: Seq<Seq<u8>>) -> Seq<Tree> {
    Seq::new(texts.len(), |i: int| Tree::Text(texts[i]))
}

/// A file in the info dictionary of a torrent of several files.
pub open spec fn file_tree(path: Seq<Seq<u8>>, length: u64) -> Tree {
    Tree::Dictionary(
        named(seq![("length"@, Tree::Int(length)), ("path"@, Tree::List(text_trees(path)))]),
    )
}

/// The info dictionary of a torrent of several files.
pub open spec fn many_files_info(
    name: Seq<u8>,
    files: Seq<(Seq<Seq<u8>>, u64)>,
    piece_length: u64,
    pieces: Seq<u8>,
) -> Tree {
    Tree::Dictionary(
        named(
            seq![
                (
                    "files"@,
                    Tree::List(Seq::new(files.len(), |i: int| file_tree(files[i].0, files[i].1))),
                ),
                ("name"@, Tree::Text(name)),
                ("piece length"@, Tree::Int(piece_length)),
                ("pieces"@, Tree::Text(pieces)),
            ],
        ),
    )
}

/// The info dictionary of a torrent of one file.
pub open spec fn single_file_info(
    name: Seq<u8>,
    length: u64,
    piece_length: u64,
    pieces: Seq<u8>,
) -> Tree {
    Tree::Dictionary(
        named(
            seq![
                ("length"@, Tree::Int(length)),
                ("name"@, Tree::Text(name)),
                ("piece length"@, Tree::Int(piece_length)),
                ("pieces"@, Tree::Text(pieces)),
            ],
        ),
    )
}

/// A metainfo file with a tracker, a list of further trackers, a date, and an info
/// dictionary.
pub open spec fn metainfo_tree(
    announce: Seq<u8>,
    others: Seq<Seq<u8>>,
    date: Seq<u8>,
    info: Tree,
) -> Tree {
    Tree::Dictionary(
        named(
            seq![
                ("announce"@, Tree::Text(announce)),
                ("announce-list"@, Tree::List(text_trees(others))),
                ("creation date"@, Tree::Text(date)),
                ("info"@, info),
            ],
        ),
    )
}

/// A metainfo file with a tracker and an info dictionary.
pub open spec fn short_metainfo_tree(announce: Seq<u8>, info: Tree) -> Tree {
    Tree::Dictionary(named(seq![("announce"@, Tree::Text(announce)), ("info"@, info)]))
}

proof fn lemma_metainfo_keys()
    ensures
        "announce"@ != "announce-list"@,
        "announce"@ != "info"@,
        "announce"@ != "creation date"@,
        "announce-list"@ != "info"@,
        "announce-list"@ != "creation date"@,
        "creation date"@ != "info"@,
        "length"@ != "name"@,
        "length"@ != "piece length"@,
        "length"@ != "pieces"@,
        "length"@ != "files"@,
        "length"@ != "path"@,
        "name"@ != "piece length"@,
        "name"@ != "pieces"@,
        "name"@ != "files"@,
        "piece length"@ != "pieces"@,
        "piece length"@ != "files"@,
        "pieces"@ != "files"@,
        is_ascii("announce"@),
        is_ascii("announce-list"@),
        is_ascii("creation date"@),
        is_ascii("info"@),
        is_ascii("length"@),
        is_ascii("name"@),
        is_ascii("piece length"@),
        is_ascii("pieces"@),
        is_ascii("files"@),
        is_ascii("path"@),
{
    reveal_strlit("announce");
    reveal_strlit("announce-list");
    reveal_strlit("creation date");
    reveal_strlit("info");
    reveal_strlit("length");
    reveal_strlit("name");
    reveal_strlit("piece length");
    reveal_strlit("pieces");
    reveal_strlit("files");
    reveal_strlit("path");
    assert("length"@[0] == 'l' && "pieces"@[0] == 'p');
    assert("announce-list"@[0] == 'a' && "creation date"@[0] == 'c');
    assert("announce"@.len() == 8 && "announce-list"@.len() == 13 && "info"@.len() == 4
        && "creation date"@.len() == 13);
    assert("length"@.len() == 6 && "name"@.len() == 4 && "piece length"@.len() == 12
        && "pieces"@.len() == 6 && "files"@.len() == 5 && "path"@.len() == 4);
}

/// A metainfo file of a torrent of one file is read as it was written: its tracker, the
/// name and the length of the file, the length of a piece, and twenty bytes for each
/// piece. The digest is that of the info dictionary as it was written.
#[verifier::rlimit(40)]
pub proof fn lemma_single_file_torrent_is_read(
    announce: Seq<u8>,
    name: Seq<u8>,
    length: u64,
    piece_length: u64,
    pieces: Seq<u8>,
    rest: Seq<u8>,
)
    requires
        plain_at(
            short_metainfo_tree(announce, single_file_info(name, length, piece_length, pieces)),
            0,
        ),
        pieces.len() % 20 == 0,
    ensures
        ({
            let info = single_file_info(name, length, piece_length, pieces);
            let data = written(short_metainfo_tree(announce, info)) + rest;
            torrent_of(data) matches Some(torrent) && {
                &&& torrent.announce == latin1(announce)
                &&& torrent.announce_list.len() == 0
                &&& torrent.creation_date.len() == 0
                &&& torrent.info.info_hash == sha1_of(written(info))
                &&& torrent.info.name == latin1(name)
                &&& torrent.info.length == length
                &&& torrent.info.piece_length == piece_length
                &&& torrent.info.files == seq![(latin1(name), length)]
                &&& torrent.info.pieces.len() * 20 == pieces.len()
                &&& forall|i: int|
                    0 <= i < torrent.info.pieces.len() ==> #[trigger] torrent.info.pieces[i]
                        == pieces.subrange(20 * i, 20 * i + 20)
            }
        }),
{
    let info = single_file_info(name, length, piece_length, pieces);
    let all = short_metainfo_tree(announce, info);
    let data = written(all) + rest;
    lemma_value_is_read(Seq::empty(), all, rest);
    assert(Seq::<u8>::empty() + written(all) + rest =~= data);
    assert(data[0] == 100);
    lemma_metainfo_keys();
    let top = seq![("announce"@, Tree::Text(announce)), ("info"@, info)];
    assert(keys_ascii(top));
    lemma_dictionary_by_key(top, "announce"@, 0);
    lemma_dictionary_by_key(top, "info"@, 1);
    lemma_dictionary_by_key(top, "announce-list"@, 0);
    lemma_dictionary_by_key(top, "creation date"@, 0);
    let fields = seq![
        ("length"@, Tree::Int(length)),
        ("name"@, Tree::Text(name)),
        ("piece length"@, Tree::Int(piece_length)),
        ("pieces"@, Tree::Text(pieces)),
    ];
    assert(keys_ascii(fields));
    lemma_dictionary_by_key(fields, "length"@, 0);
    lemma_dictionary_by_key(fields, "name"@, 1);
    lemma_dictionary_by_key(fields, "piece length"@, 2);
    lemma_dictionary_by_key(fields, "pieces"@, 3);
    lemma_dictionary_by_key(fields, "files"@, 0);
}

proof fn lemma_items_meaning(items: Seq<Tree>)
    ensures
        items_meaning(items).len() == items.len(),
        forall|i: int|
            0 <= i < items.len() ==> #[trigger] items_meaning(items)[i] == meaning(items[i]),
    decreases items.len(),
{
    if items.len() > 0 {
        lemma_items_meaning(items.skip(1));
        assert forall|i: int| 0 <= i < items.len() implies #[trigger] items_meaning(items)[i]
            == meaning(items[i]) by {
            if i > 0 {
                assert(items_meaning(items)[i] == items_meaning(items.skip(1))[i - 1]);
            }
        }
    }
}

/// A metainfo file of a torrent of several files is read as it was written: its tracker,
/// the further ones, its date, and each file, in order, with its length and its place
/// below the name of the torrent.
pub proof fn lemma_many_files_torrent_is_read(
    announce: Seq<u8>,
    others: Seq<Seq<u8>>,
    date: Seq<u8>,
    name: Seq<u8>,
    files: Seq<(Seq<Seq<u8>>, u64)>,
    piece_length: u64,
    pieces: Seq<u8>,
    rest: Seq<u8>,
)
    requires
        plain_at(
            metainfo_tree(
                announce,
                others,
                date,
                many_files_info(name, files, piece_length, pieces),
            ),
            0,
        ),
        pieces.len() % 20 == 0,
        forall|i: int| 0 <= i < files.len() ==> (#[trigger] files[i]).0.len() > 0,
    ensures
        ({
            let info = many_files_info(name, files, piece_length, pieces);
            let data = written(metainfo_tree(announce, others, date, info)) + rest;
            torrent_of(data) matches Some(torrent) && {
                &&& torrent.announce == latin1(announce)
                &&& torrent.announce_list.len() == others.len()
                &&& forall|i: int|
                    0 <= i < others.len() ==> #[trigger] torrent.announce_list[i] == latin1(
                        others[i],
                    )
                &&& torrent.creation_date == latin1(date)
                &&& torrent.info.info_hash == sha1_of(written(info))
                &&& torrent.info.name == latin1(name)
                &&& torrent.info.length == 0
                &&& torrent.info.piece_length == piece_length
                &&& torrent.info.files.len() == files.len()
                &&& forall|i: int|
                    0 <= i < files.len() ==> #[trigger] torrent.info.files[i] == (
                        latin1(name) + "/"@ + latin1(files[i].0[0]),
                        files[i].1,
                    )
                &&& torrent.info.pieces.len() * 20 == pieces.len()
                &&& forall|i: int|
                    0 <= i < torrent.info.pieces.len() ==> #[trigger] torrent.info.pieces[i]
                        == pieces.subrange(20 * i, 20 * i + 20)
            }
        }),
{
    let info = many_files_info(name, files, piece_length, pieces);
    let all = metainfo_tree(announce, others, date, info);
    let data = written(all) + rest;
    lemma_value_is_read(Seq::empty(), all, rest);
    assert(Seq::<u8>::empty() + written(all) + rest =~= data);
    assert(data[0] == 100);
    lemma_metainfo_keys();
    let lists = text_trees(others);
    let top = seq![
        ("announce"@, Tree::Text(announce)),
        ("announce-list"@, Tree::List(lists)),
        ("creation date"@, Tree::Text(date)),
        ("info"@, info),
    ];
    assert(keys_ascii(top));
    lemma_dictionary_by_key(top, "announce"@, 0);
    lemma_dictionary_by_key(top, "announce-list"@, 1);
    lemma_dictionary_by_key(top, "creation date"@, 2);
    lemma_dictionary_by_key(top, "info"@, 3);
    lemma_items_meaning(lists);
    assert forall|i: int| 0 <= i < others.len() implies text_of(
        #[trigger] items_meaning(lists)[i],
    ) == latin1(others[i]) by {}
    lemma_many_files_info_is_read(name, files, piece_length, pieces);
}

proof fn lemma_many_files_info_is_read(
    name: Seq<u8>,
    files: Seq<(Seq<Seq<u8>>, u64)>,
    piece_length: u64,
    pieces: Seq<u8>,
)
    requires
        forall|i: int| 0 <= i < files.len() ==> (#[trigger] files[i]).0.len() > 0,
    ensures
        ({
            let tree = many_files_info(name, files, piece_length, pieces);
            let info = info_of(meaning(tree));
            &&& info_ok(meaning(tree))
            &&& info.info_hash == sha1_of(written(tree))
            &&& info.name == latin1(name)
            &&& info.length == 0
            &&& info.piece_length == piece_length
            &&& info.files.len() == files.len()
            &&& forall|i: int|
                0 <= i < files.len() ==> #[trigger] info.files[i] == (
                    latin1(name) + "/"@ + latin1(files[i].0[0]),
                    files[i].1,
                )
            &&& info.pieces == chunks_of_20(pieces)
        }),
{
    let tree = many_files_info(name, files, piece_length, pieces);
    lemma_metainfo_keys();
    let list = Seq::new(files.len(), |i: int| file_tree(files[i].0, files[i].1));
    let fields = seq![
        ("files"@, Tree::List(list)),
        ("name"@, Tree::Text(name)),
        ("piece length"@, Tree::Int(piece_length)),
        ("pieces"@, Tree::Text(pieces)),
    ];
    assert(keys_ascii(fields));
    lemma_dictionary_by_key(fields, "files"@, 0);
    lemma_dictionary_by_key(fields, "name"@, 1);
    lemma_dictionary_by_key(fields, "piece length"@, 2);
    lemma_dictionary_by_key(fields, "pieces"@, 3);
    lemma_dictionary_by_key(fields, "length"@, 0);
    lemma_items_meaning(list);
    assert forall|i: int| 0 <= i < files.len() implies file_ok(#[trigger] items_meaning(list)[i])
        && file_of(latin1(name), items_meaning(list)[i]) == Some(
        (latin1(name) + "/"@ + latin1(files[i].0[0]), files[i].1),
    ) by {
        lemma_file_is_read(latin1(name), files[i].0, files[i].1);
    }
    lemma_files_are_read(latin1(name), items_meaning(list), files);
    assert(meaning(tree) is Dictionary);
}

proof fn lemma_file_is_read(name: Seq<char>, path: Seq<Seq<u8>>, length: u64)
    requires
        path.len() > 0,
    ensures
        file_ok(meaning(file_tree(path, length))),
        file_of(name, meaning(file_tree(path, length))) == Some(
            (name + "/"@ + latin1(path[0]), length),
        ),
{
    lemma_metainfo_keys();
    let fields = seq![("length"@, Tree::Int(length)), ("path"@, Tree::List(text_trees(path)))];
    assert(keys_ascii(fields));
    lemma_dictionary_by_key(fields, "length"@, 0);
    lemma_dictionary_by_key(fields, "path"@, 1);
    lemma_items_meaning(text_trees(path));
    assert(meaning(text_trees(path)[0]) == meaning(Tree::Text(path[0])));
}

proof fn lemma_files_are_read(
    name: Seq<char>,
    entries: Seq<Value>,
    files: Seq<(Seq<Seq<u8>>, u64)>,
)
    requires
        entries.len() == files.len(),
        forall|i: int|
            0 <= i < files.len() ==> file_of(name, #[trigger] entries[i]) == Some(
                (name + "/"@ + latin1(files[i].0[0]), files[i].1),
            ),
    ensures
        files_of(name, entries).len() == files.len(),
        forall|i: int|
            0 <= i < files.len() ==> #[trigger] files_of(name, entries)[i] == (
                name + "/"@ + latin1(files[i].0[0]),
                files[i].1,
            ),
    decreases entries.len(),
{
    if entries.len() > 0 {
        assert forall|i: int| 0 <= i < files.len() - 1 implies file_of(
            name,
            #[trigger] entries.drop_last()[i],
        ) == Some(
            (name + "/"@ + latin1(files.drop_last()[i].0[0]), files.drop_last()[i].1),
        ) by {
            assert(entries.drop_last()[i] == entries[i]);
        }
        lemma_files_are_read(name, entries.drop_last(), files.drop_last());
        let last = entries.len() - 1;
        assert(entries.last() == entries[last]);
        assert forall|i: int| 0 <= i < files.len() implies #[trigger] files_of(name, entries)[i]
            == (name + "/"@ + latin1(files[i].0[0]), files[i].1) by {
            if i < last {
                assert(files_of(name, entries)[i] == files_of(name, entries.drop_last())[i]);
            }
        }
    }
}

/// Where the file has both a path and a length, the path is not empty.
pub open spec fn has_no_empty_path(file: Value) -> bool {
    lookup(entries_of(file), "path"@) matches Some(path) ==> lookup(entries_of(file), "length"@)
        is Some ==> items_of(path).len() > 0
}

/// A metainfo file is refused just where it has no info dictionary with a name, a length
/// of pieces and their digests, or where a file has an empty path. What is missing
/// otherwise is empty or zero, and a file without a path or a length is left out.
pub proof fn lemma_what_a_metainfo_file_needs(data: Seq<u8>)
    ensures
        data.len() == 0 || data[0] != 100 || dictionary_at(data, 1) is None ==> torrent_of(data)
            is None,
        data.len() > 0 && data[0] == 100 ==> (dictionary_at(data, 1) matches Some((value, end))
            ==> {
            let entries = entries_of(value);
            &&& lookup(entries, "info"@) is None ==> torrent_of(data) is None
            &&& lookup(entries, "info"@) matches Some(info) ==> {
                let fields = entries_of(info);
                &&& !(info is Dictionary) ==> torrent_of(data) is None
                &&& lookup(fields, "name"@) is None || lookup(fields, "piece length"@) is None
                    || lookup(fields, "pieces"@) is None ==> torrent_of(data) is None
                &&& info is Dictionary && lookup(fields, "name"@) is Some && lookup(
                    fields,
                    "piece length"@,
                ) is Some && lookup(fields, "pieces"@) is Some ==> (torrent_of(data) is Some <==> (
                lookup(fields, "files"@) matches Some(files) ==> forall|i: int|
                    0 <= i < items_of(files).len() ==> has_no_empty_path(
                        #[trigger] items_of(files)[i],
                    )))
                &&& torrent_of(data) matches Some(torrent) ==> {
                    &&& lookup(entries, "announce"@) is None ==> torrent.announce.len() == 0
                    &&& lookup(entries, "announce-list"@) is None
                        ==> torrent.announce_list.len() == 0
                    &&& lookup(entries, "creation date"@) is None
                        ==> torrent.creation_date.len() == 0
                    &&& lookup(fields, "length"@) is None ==> torrent.info.length == 0
                    &&& lookup(fields, "files"@) is None ==> torrent.info.files == seq![
                        (torrent.info.name, torrent.info.length),
                    ]
                }
            }
        }),
        forall|name: Seq<char>, entry: Value|
            lookup(entries_of(entry), "path"@) is None || lookup(entries_of(entry), "length"@)
                is None ==> #[trigger] file_of(name, entry) is None,
{
    if let Some((value, end)) = dictionary_at(data, 1) {
        if let Some(info) = lookup(entries_of(value), "info"@) {
            if let Some(files) = lookup(entries_of(info), "files"@) {
                assert forall|i: int| 0 <= i < items_of(files).len() implies has_no_empty_path(
                    #[trigger] items_of(files)[i],
                ) == file_ok(items_of(files)[i]) by {}
            }
        }
    }
}

} // verus!
