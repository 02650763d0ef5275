//! Bencoded values and metainfo files are read as they are written.
use vstd::prelude::*;
use vstd::utf8::{encode_utf8, encode_utf8_decode_utf8, encode_utf8_valid_utf8};

use crate::bencode::{
    BValue, entries_at, entries_of, file_of, file_ok, files_of, items_at, items_of,
    lemma_text_anywhere, lemma_value_anywhere, text_at, text_of, torrent_of, value_at,
};
use crate::dictionary::{lemma_put, lookup, put};
use crate::hashing::{hex_of, sha1_of};
use crate::laws::text::{ascii_bytes, lemma_decimal, lemma_numbers_are_read_back};
use crate::scan::{find_from, lemma_find_from};
use crate::text::{decimal, utf8_or_empty};

verus! {

/// A value that can be bencoded.
pub enum Tree {
    Int(i64),
    Text(Seq<u8>),
    List(Seq<Tree>),
    Dictionary(Seq<(Seq<u8>, Tree)>),
}

/// A byte string as it is written: the number of its bytes, a colon, and the bytes.
pub open spec fn text_written(bytes: Seq<u8>) -> Seq<u8> {
    ascii_bytes(decimal(bytes.len())).push(58) + bytes
}

/// A value as it is written: a number between `i` and `e`, a list between `l` and `e`, a
/// dictionary between `d` and `e`.
pub open spec fn written(tree: Tree) -> Seq<u8>
    decreases tree,
{
    match tree {
        Tree::Int(n) => if n >= 0 {
            seq![105u8] + ascii_bytes(decimal(n as nat)) + seq![101u8]
        } else {
            seq![105u8, 45u8] + ascii_bytes(decimal((0 - n) as nat)) + seq![101u8]
        },
        Tree::Text(bytes) => text_written(bytes),
        Tree::List(items) => seq![108u8] + items_written(items) + seq![101u8],
        Tree::Dictionary(entries) => seq![100u8] + entries_written(entries) + seq![101u8],
    }
}

/// The items of a list as they are written, one after the other.
pub open spec fn items_written(items: Seq<Tree>) -> Seq<u8>
    decreases items,
{
    if items.len() == 0 {
        Seq::empty()
    } else {
        written(items[0]) + items_written(items.skip(1))
    }
}

/// The entries of a dictionary as they are written, each with its key first.
pub open spec fn entries_written(entries: Seq<(Seq<u8>, Tree)>) -> Seq<u8>
    decreases entries,
{
    if entries.len() == 0 {
        Seq::empty()
    } else {
        text_written(entries[0].0) + written(entries[0].1) + entries_written(entries.skip(1))
    }
}

/// What a value means. A dictionary keeps the digest of its own bytes.
pub open spec fn meaning(tree: Tree) -> BValue
    decreases tree,
{
    match tree {
        Tree::Int(n) => BValue::Int(n),
        Tree::Text(bytes) => BValue::Text { text: utf8_or_empty(bytes), bytes },
        Tree::List(items) => BValue::List(items_meaning(items)),
        Tree::Dictionary(entries) => BValue::Dictionary {
            entries: entries_meaning(entries, Seq::empty()),
            hash: sha1_of(written(tree)),
            hash_str: hex_of(sha1_of(written(tree))),
        },
    }
}

/// What the items of a list mean.
pub open spec fn items_meaning(items: Seq<Tree>) -> Seq<BValue>
    decreases items,
{
    if items.len() == 0 {
        Seq::empty()
    } else {
        seq![meaning(items[0])] + items_meaning(items.skip(1))
    }
}

/// What the entries of a dictionary mean, put one after the other behind those before.
pub open spec fn entries_meaning(
    entries: Seq<(Seq<u8>, Tree)>,
    before: Seq<(Seq<char>, BValue)>,
) -> Seq<(Seq<char>, BValue)>
    decreases entries,
{
    if entries.len() == 0 {
        before
    } else {
        entries_meaning(
            entries.skip(1),
            put(before, utf8_or_empty(entries[0].0), meaning(entries[0].1)),
        )
    }
}

/// Each byte string of the value has a length that can be counted, and no number is the
/// least one, whose opposite is none.
pub open spec fn countable(tree: Tree) -> bool
    decreases tree,
{
    match tree {
        Tree::Int(n) => n > i64::MIN,
        Tree::Text(bytes) => bytes.len() <= usize::MAX,
        Tree::List(items) => items_countable(items),
        Tree::Dictionary(entries) => entries_countable(entries),
    }
}

/// Each item is countable.
pub open spec fn items_countable(items: Seq<Tree>) -> bool
    decreases items,
{
    items.len() == 0 || (countable(items[0]) && items_countable(items.skip(1)))
}

/// Each entry is countable.
pub open spec fn entries_countable(entries: Seq<(Seq<u8>, Tree)>) -> bool
    decreases entries,
{
    entries.len() == 0 || (entries[0].0.len() <= usize::MAX && countable(entries[0].1)
        && entries_countable(entries.skip(1)))
}

/// A byte string is read as it is written, whatever follows.
pub proof fn lemma_text_is_read(bytes: Seq<u8>, rest: Seq<u8>)
    requires
        bytes.len() <= usize::MAX,
    ensures
        text_at(text_written(bytes) + rest, 0) == Some(
            (
                BValue::Text { text: utf8_or_empty(bytes), bytes },
                text_written(bytes).len() as int,
            ),
        ),
        48 <= text_written(bytes)[0] <= 57,
        text_written(bytes).len() > 0,
{
    let digits = ascii_bytes(decimal(bytes.len()));
    let data = text_written(bytes) + rest;
    lemma_decimal(bytes.len());
    lemma_numbers_are_read_back(bytes.len(), usize::MAX as nat);
    lemma_find_from(data, 0, 58);
    let colon = digits.len() as int;
    assert forall|i: int| 0 <= i < colon implies 48 <= #[trigger] data[i] <= 57 by {
        assert('0' <= decimal(bytes.len())[i] <= '9');
        assert(data[i] == digits[i]);
    }
    assert(data[colon] == 58);
    assert(find_from(data, 0, 58) == Some(colon));
    assert(data.subrange(0, colon) =~= digits);
    assert(data.subrange(colon + 1, colon + 1 + bytes.len()) =~= bytes);
    assert(text_written(bytes)[0] == data[0]);
}

proof fn lemma_int_is_read(n: i64, rest: Seq<u8>)
    requires
        n > i64::MIN,
    ensures
        value_at(written(Tree::Int(n)) + rest, 0) == Some(
            (BValue::Int(n), written(Tree::Int(n)).len() as int),
        ),
{
    let size = if n >= 0 {
        n as nat
    } else {
        (0 - n) as nat
    };
    let digits = ascii_bytes(decimal(size));
    let data = written(Tree::Int(n)) + rest;
    lemma_decimal(size);
    lemma_numbers_are_read_back(size, usize::MAX as nat);
    lemma_find_from(data, 1, 101);
    let end = written(Tree::Int(n)).len() - 1;
    let skipped = if n >= 0 {
        1int
    } else {
        2int
    };
    assert forall|i: int| skipped <= i < end implies 48 <= #[trigger] data[i] <= 57 by {
        assert('0' <= decimal(size)[i - skipped] <= '9');
        assert(data[i] == digits[i - skipped]);
    }
    assert(data[0] == 105);
    assert(n < 0 ==> data[1] == 45);
    assert(data[end] == 101);
    assert(find_from(data, 1, 101) == Some(end));
    if n >= 0 {
        assert(data.subrange(1, end) =~= digits);
    } else {
        assert(data.subrange(1, end) =~= seq![45u8] + digits);
    }
}

proof fn lemma_begins(tree: Tree)
    requires
        countable(tree),
    ensures
        written(tree).len() > 0,
        written(tree)[0] != 101,
        tree is Text ==> 48 <= written(tree)[0] <= 57,
{
    match tree {
        Tree::Text(bytes) => lemma_text_is_read(bytes, Seq::empty()),
        _ => {},
    }
}

/// A value is read as it is written, whatever follows: numbers, byte strings, lists and
/// dictionaries, one within the other.
pub proof fn lemma_value_is_read(tree: Tree, rest: Seq<u8>)
    requires
        countable(tree),
    ensures
        value_at(written(tree) + rest, 0) == Some((meaning(tree), written(tree).len() as int)),
    decreases tree,
{
    let data = written(tree) + rest;
    lemma_begins(tree);
    match tree {
        Tree::Int(n) => lemma_int_is_read(n, rest),
        Tree::Text(bytes) => {
            lemma_text_is_read(bytes, rest);
            assert(data[0] == written(tree)[0]);
        },
        Tree::List(items) => {
            lemma_items_are_read(seq![108u8], items, rest, Seq::empty());
            assert(data =~= seq![108u8] + items_written(items) + seq![101u8] + rest);
            assert(data[0] == 108);
            assert(Seq::<BValue>::empty() + items_meaning(items) =~= items_meaning(items));
        },
        Tree::Dictionary(entries) => {
            lemma_entries_are_read(seq![100u8], entries, rest, Seq::empty());
            assert(data =~= seq![100u8] + entries_written(entries) + seq![101u8] + rest);
            assert(data[0] == 100);
            assert(data.subrange(0, written(tree).len() as int) =~= written(tree));
        },
    }
}

proof fn lemma_items_are_read(
    before: Seq<u8>,
    items: Seq<Tree>,
    rest: Seq<u8>,
    read: Seq<BValue>,
)
    requires
        items_countable(items),
    ensures
        items_at(
            before + items_written(items) + seq![101u8] + rest,
            before.len() as int,
            read,
        ) == Some(
            (
                read + items_meaning(items),
                (before.len() + items_written(items).len() + 1) as int,
            ),
        ),
    decreases items,
{
    let data = before + items_written(items) + seq![101u8] + rest;
    let at = before.len() as int;
    if items.len() == 0 {
        assert(data[at] == 101);
        assert(read + items_meaning(items) =~= read);
    } else {
        let first = written(items[0]);
        let others = items.skip(1);
        let tail = items_written(others) + seq![101u8] + rest;
        lemma_begins(items[0]);
        lemma_value_is_read(items[0], tail);
        lemma_value_anywhere(before, first + tail, 0);
        assert(data =~= before + (first + tail));
        assert(data[at] == first[0]);
        lemma_items_are_read(before + first, others, rest, read.push(meaning(items[0])));
        assert(data =~= (before + first) + items_written(others) + seq![101u8] + rest);
        assert(read.push(meaning(items[0])) + items_meaning(others) =~= read + items_meaning(
            items,
        ));
    }
}

proof fn lemma_entries_are_read(
    before: Seq<u8>,
    entries: Seq<(Seq<u8>, Tree)>,
    rest: Seq<u8>,
    read: Seq<(Seq<char>, BValue)>,
)
    requires
        entries_countable(entries),
    ensures
        entries_at(
            before + entries_written(entries) + seq![101u8] + rest,
            before.len() as int,
            read,
        ) == Some(
            (
                entries_meaning(entries, read),
                (before.len() + entries_written(entries).len() + 1) as int,
            ),
        ),
    decreases entries,
{
    let data = before + entries_written(entries) + seq![101u8] + rest;
    let at = before.len() as int;
    if entries.len() == 0 {
        assert(data[at] == 101);
    } else {
        let key = text_written(entries[0].0);
        let value = written(entries[0].1);
        let others = entries.skip(1);
        let tail = entries_written(others) + seq![101u8] + rest;
        lemma_begins(entries[0].1);
        lemma_text_is_read(entries[0].0, value + tail);
        lemma_text_anywhere(before, key + (value + tail), 0);
        assert(data =~= before + (key + (value + tail)));
        assert(data[at] == key[0]);
        lemma_value_is_read(entries[0].1, tail);
        lemma_value_anywhere(before + key, value + tail, 0);
        assert(data =~= (before + key) + (value + tail));
        lemma_entries_are_read(
            before + key + value,
            others,
            rest,
            put(read, utf8_or_empty(entries[0].0), meaning(entries[0].1)),
        );
        assert(data =~= (before + key + value) + entries_written(others) + seq![101u8] + rest);
    }
}

/// A text as a value.
pub open spec fn text_tree(text: Seq<char>) -> Tree {
    Tree::Text(encode_utf8(text))
}

/// Texts as the items of a list.
pub open spec fn text_trees(texts: Seq<Seq<char>>) -> Seq<Tree> {
    Seq::new(texts.len(), |i: int| text_tree(texts[i]))
}

/// The entries of a dictionary whose keys are texts.
pub open spec fn named(entries: Seq<(Seq<char>, Tree)>) -> Seq<(Seq<u8>, Tree)> {
    Seq::new(entries.len(), |i: int| (encode_utf8(entries[i].0), entries[i].1))
}

proof fn lemma_utf8(text: Seq<char>)
    ensures
        utf8_or_empty(encode_utf8(text)) == text,
{
    encode_utf8_valid_utf8(text);
    encode_utf8_decode_utf8(text);
}

proof fn lemma_items_meaning(items: Seq<Tree>)
    ensures
        items_meaning(items).len() == items.len(),
        forall|i: int|
            0 <= i < items.len() ==> #[trigger] items_meaning(items)[i] == meaning(items[i]),
    decreases items.len(),
{
    if items.len() > 0 {
        lemma_items_meaning(items.skip(1));
        assert forall|i: int| 0 <= i < items.len() implies #[trigger] items_meaning(items)[i]
            == meaning(items[i]) by {
            if i > 0 {
                assert(items_meaning(items)[i] == items_meaning(items.skip(1))[i - 1]);
            }
        }
    }
}

proof fn lemma_absent(
    entries: Seq<(Seq<char>, Tree)>,
    before: Seq<(Seq<char>, BValue)>,
    key: Seq<char>,
)
    requires
        forall|i: int| 0 <= i < entries.len() ==> (#[trigger] entries[i]).0 != key,
    ensures
        lookup(entries_meaning(named(entries), before), key) == lookup(before, key),
    decreases entries.len(),
{
    if entries.len() > 0 {
        let others = entries.skip(1);
        assert(named(entries).skip(1) =~= named(others));
        lemma_utf8(entries[0].0);
        let after = put(before, entries[0].0, meaning(entries[0].1));
        lemma_put(before, entries[0].0, meaning(entries[0].1));
        assert forall|i: int| 0 <= i < others.len() implies (#[trigger] others[i]).0 != key by {
            assert(others[i] == entries[i + 1]);
        }
        lemma_absent(others, after, key);
    }
}

proof fn lemma_present(
    entries: Seq<(Seq<char>, Tree)>,
    before: Seq<(Seq<char>, BValue)>,
    k: int,
)
    requires
        0 <= k < entries.len(),
        forall|i: int| k < i < entries.len() ==> (#[trigger] entries[i]).0 != entries[k].0,
    ensures
        lookup(entries_meaning(named(entries), before), entries[k].0) == Some(
            meaning(entries[k].1),
        ),
    decreases entries.len(),
{
    let others = entries.skip(1);
    assert(named(entries).skip(1) =~= named(others));
    lemma_utf8(entries[0].0);
    let after = put(before, entries[0].0, meaning(entries[0].1));
    lemma_put(before, entries[0].0, meaning(entries[0].1));
    assert forall|i: int| k - 1 < i < others.len() && 0 <= i implies (#[trigger] others[i]).0
        != entries[k].0 by {
        assert(others[i] == entries[i + 1]);
    }
    if k == 0 {
        lemma_absent(others, after, entries[0].0);
    } else {
        assert(others[k - 1] == entries[k]);
        lemma_present(others, after, k - 1);
    }
}

/// Under a key of a dictionary the last value that was written with that key is found,
/// and nothing under a key that was not written.
pub proof fn lemma_dictionary_by_key(entries: Seq<(Seq<char>, Tree)>, key: Seq<char>, k: int)
    ensures
        ({
            let value = meaning(Tree::Dictionary(named(entries)));
            &&& 0 <= k < entries.len() && entries[k].0 == key && (forall|i: int|
                k < i < entries.len() ==> (#[trigger] entries[i]).0 != key) ==> lookup(
                entries_of(value),
                key,
            ) == Some(meaning(entries[k].1))
            &&& (forall|i: int| 0 <= i < entries.len() ==> (#[trigger] entries[i]).0 != key)
                ==> lookup(entries_of(value), key) is None
        }),
{
    if forall|i: int| 0 <= i < entries.len() ==> (#[trigger] entries[i]).0 != key {
        lemma_absent(entries, Seq::empty(), key);
    }
    if 0 <= k < entries.len() && entries[k].0 == key && (forall|i: int|
        k < i < entries.len() ==> (#[trigger] entries[i]).0 != key) {
        lemma_present(entries, Seq::empty(), k);
    }
}

/// The info dictionary of a torrent of one file.
pub open spec fn single_file_info(
    name: Seq<char>,
    length: i64,
    piece_length: i64,
    pieces: Seq<u8>,
) -> Tree {
    Tree::Dictionary(
        named(
            seq![
                ("length"@, Tree::Int(length)),
                ("name"@, text_tree(name)),
                ("piece length"@, Tree::Int(piece_length)),
                ("pieces"@, Tree::Text(pieces)),
            ],
        ),
    )
}

/// A file in the info dictionary of a torrent of several files.
pub open spec fn file_tree(path: Seq<Seq<char>>, length: i64) -> Tree {
    Tree::Dictionary(
        named(seq![("length"@, Tree::Int(length)), ("path"@, Tree::List(text_trees(path)))]),
    )
}

/// The info dictionary of a torrent of several files.
pub open spec fn many_files_info(
    name: Seq<char>,
    files: Seq<(Seq<Seq<char>>, i64)>,
    piece_length: i64,
    pieces: Seq<u8>,
) -> Tree {
    Tree::Dictionary(
        named(
            seq![
                (
                    "files"@,
                    Tree::List(Seq::new(files.len(), |i: int| file_tree(files[i].0, files[i].1))),
                ),
                ("name"@, text_tree(name)),
                ("piece length"@, Tree::Int(piece_length)),
                ("pieces"@, Tree::Text(pieces)),
            ],
        ),
    )
}

/// A metainfo file with a tracker, groups of further trackers, and an info dictionary.
pub open spec fn metainfo_tree(
    announce: Seq<char>,
    groups: Seq<Seq<Seq<char>>>,
    info: Tree,
) -> Tree {
    Tree::Dictionary(
        named(
            seq![
                ("announce"@, text_tree(announce)),
                (
                    "announce-list"@,
                    Tree::List(
                        Seq::new(groups.len(), |i: int| Tree::List(text_trees(groups[i]))),
                    ),
                ),
                ("info"@, info),
            ],
        ),
    )
}

/// A metainfo file with a tracker and an info dictionary.
pub open spec fn short_metainfo_tree(announce: Seq<char>, info: Tree) -> Tree {
    Tree::Dictionary(named(seq![("announce"@, text_tree(announce)), ("info"@, info)]))
}

/// A metainfo file of a torrent of one file is read as it was written: its tracker, the
/// name and the length of the file, the length of a piece, and twenty bytes for each
/// piece. The digest is that of the info dictionary as it was written.
pub proof fn lemma_single_file_torrent_is_read(
    announce: Seq<char>,
    name: Seq<char>,
    length: i64,
    piece_length: i64,
    pieces: Seq<u8>,
    rest: Seq<u8>,
)
    requires
        countable(
            short_metainfo_tree(announce, single_file_info(name, length, piece_length, pieces)),
        ),
        pieces.len() % 20 == 0,
    ensures
        ({
            let info = single_file_info(name, length, piece_length, pieces);
            let data = written(short_metainfo_tree(announce, info)) + rest;
            torrent_of(data) matches Some(torrent) && {
                &&& torrent.announce == announce
                &&& torrent.announce_list.len() == 0
                &&& torrent.info.info_hash == sha1_of(written(info))
                &&& torrent.info.info_hash_str == hex_of(sha1_of(written(info)))
                &&& torrent.info.name == name
                &&& torrent.info.length == length as u64
                &&& torrent.info.piece_length == piece_length as u64
                &&& torrent.info.files == seq![(name, length as u64)]
                &&& torrent.info.pieces.len() * 20 == pieces.len()
                &&& forall|i: int|
                    0 <= i < torrent.info.pieces.len() ==> #[trigger] torrent.info.pieces[i]
                        == pieces.subrange(20 * i, 20 * i + 20)
            }
        }),
{
    let info = single_file_info(name, length, piece_length, pieces);
    let all = short_metainfo_tree(announce, info);
    lemma_value_is_read(all, rest);
    lemma_keys_differ();
    let top = seq![("announce"@, text_tree(announce)), ("info"@, info)];
    lemma_dictionary_by_key(top, "announce"@, 0);
    lemma_dictionary_by_key(top, "info"@, 1);
    lemma_dictionary_by_key(top, "announce-list"@, 0);
    let fields = seq![
        ("length"@, Tree::Int(length)),
        ("name"@, text_tree(name)),
        ("piece length"@, Tree::Int(piece_length)),
        ("pieces"@, Tree::Text(pieces)),
    ];
    lemma_dictionary_by_key(fields, "length"@, 0);
    lemma_dictionary_by_key(fields, "name"@, 1);
    lemma_dictionary_by_key(fields, "piece length"@, 2);
    lemma_dictionary_by_key(fields, "pieces"@, 3);
    lemma_dictionary_by_key(fields, "files"@, 0);
    lemma_utf8(announce);
    lemma_utf8(name);
}

proof fn lemma_keys_differ()
    ensures
        "announce"@ != "announce-list"@,
        "announce"@ != "info"@,
        "announce-list"@ != "info"@,
        "length"@ != "name"@,
        "length"@ != "piece length"@,
        "length"@ != "pieces"@,
        "length"@ != "files"@,
        "length"@ != "path"@,
        "name"@ != "piece length"@,
        "name"@ != "pieces"@,
        "name"@ != "files"@,
        "piece length"@ != "pieces"@,
        "piece length"@ != "files"@,
        "pieces"@ != "files"@,
{
    reveal_strlit("announce");
    reveal_strlit("announce-list");
    reveal_strlit("info");
    reveal_strlit("length");
    reveal_strlit("name");
    reveal_strlit("piece length");
    reveal_strlit("pieces");
    reveal_strlit("files");
    reveal_strlit("path");
    assert("length"@[0] == 'l' && "pieces"@[0] == 'p');
    assert("announce"@.len() == 8 && "announce-list"@.len() == 13 && "info"@.len() == 4);
    assert("length"@.len() == 6 && "name"@.len() == 4 && "piece length"@.len() == 12
        && "pieces"@.len() == 6 && "files"@.len() == 5 && "path"@.len() == 4);
}

/// A metainfo file of a torrent of several files is read as it was written: its tracker,
/// the first tracker of each group, and each file, in order, with its length and its
/// place below the name of the torrent.
#[verifier::rlimit(40)]
pub proof fn lemma_many_files_torrent_is_read(
    announce: Seq<char>,
    groups: Seq<Seq<Seq<char>>>,
    name: Seq<char>,
    files: Seq<(Seq<Seq<char>>, i64)>,
    piece_length: i64,
    pieces: Seq<u8>,
    rest: Seq<u8>,
)
    requires
        countable(
            metainfo_tree(announce, groups, many_files_info(name, files, piece_length, pieces)),
        ),
        pieces.len() % 20 == 0,
        forall|i: int| 0 <= i < groups.len() ==> (#[trigger] groups[i]).len() > 0,
        forall|i: int| 0 <= i < files.len() ==> (#[trigger] files[i]).0.len() > 0,
    ensures
        ({
            let info = many_files_info(name, files, piece_length, pieces);
            let data = written(metainfo_tree(announce, groups, info)) + rest;
            torrent_of(data) matches Some(torrent) && {
                &&& torrent.announce == announce
                &&& torrent.announce_list.len() == groups.len()
                &&& forall|i: int|
                    0 <= i < groups.len() ==> #[trigger] torrent.announce_list[i] == groups[i][0]
                &&& torrent.info.info_hash == sha1_of(written(info))
                &&& torrent.info.info_hash_str == hex_of(sha1_of(written(info)))
                &&& torrent.info.name == name
                &&& torrent.info.length == 0
                &&& torrent.info.piece_length == piece_length as u64
                &&& torrent.info.files.len() == files.len()
                &&& forall|i: int|
                    0 <= i < files.len() ==> #[trigger] torrent.info.files[i] == (
                        name + "/"@ + files[i].0[0],
                        files[i].1 as u64,
                    )
                &&& torrent.info.pieces.len() * 20 == pieces.len()
                &&& forall|i: int|
                    0 <= i < torrent.info.pieces.len() ==> #[trigger] torrent.info.pieces[i]
                        == pieces.subrange(20 * i, 20 * i + 20)
            }
        }),
{
    let info = many_files_info(name, files, piece_length, pieces);
    let all = metainfo_tree(announce, groups, info);
    lemma_value_is_read(all, rest);
    lemma_keys_differ();
    let lists = Seq::new(groups.len(), |i: int| Tree::List(text_trees(groups[i])));
    let top = seq![
        ("announce"@, text_tree(announce)),
        ("announce-list"@, Tree::List(lists)),
        ("info"@, info),
    ];
    lemma_dictionary_by_key(top, "announce"@, 0);
    lemma_dictionary_by_key(top, "announce-list"@, 1);
    lemma_dictionary_by_key(top, "info"@, 2);
    let list = Seq::new(files.len(), |i: int| file_tree(files[i].0, files[i].1));
    let fields = seq![
        ("files"@, Tree::List(list)),
        ("name"@, text_tree(name)),
        ("piece length"@, Tree::Int(piece_length)),
        ("pieces"@, Tree::Text(pieces)),
    ];
    lemma_dictionary_by_key(fields, "files"@, 0);
    lemma_dictionary_by_key(fields, "name"@, 1);
    lemma_dictionary_by_key(fields, "piece length"@, 2);
    lemma_dictionary_by_key(fields, "pieces"@, 3);
    lemma_dictionary_by_key(fields, "length"@, 0);
    lemma_utf8(announce);
    lemma_utf8(name);
    lemma_items_meaning(lists);
    lemma_items_meaning(list);
    assert forall|i: int| 0 <= i < groups.len() implies items_of(
        #[trigger] items_meaning(lists)[i],
    ).len() > 0 && text_of(items_of(items_meaning(lists)[i])[0]) == groups[i][0] by {
        lemma_first_text(groups[i]);
    }
    assert forall|i: int| 0 <= i < files.len() implies file_ok(#[trigger] items_meaning(list)[i])
        && file_of(name, items_meaning(list)[i]) == Some(
        (name + "/"@ + files[i].0[0], files[i].1 as u64),
    ) by {
        lemma_file_is_read(name, files[i].0, files[i].1);
    }
    lemma_files_are_read(name, items_meaning(list), files);
}

proof fn lemma_first_text(texts: Seq<Seq<char>>)
    requires
        texts.len() > 0,
    ensures
        items_of(meaning(Tree::List(text_trees(texts)))).len() == texts.len(),
        text_of(items_of(meaning(Tree::List(text_trees(texts))))[0]) == texts[0],
{
    lemma_items_meaning(text_trees(texts));
    lemma_utf8(texts[0]);
    assert(meaning(text_trees(texts)[0]) == meaning(text_tree(texts[0])));
}

proof fn lemma_file_is_read(name: Seq<char>, path: Seq<Seq<char>>, length: i64)
    requires
        path.len() > 0,
    ensures
        file_ok(meaning(file_tree(path, length))),
        file_of(name, meaning(file_tree(path, length))) == Some(
            (name + "/"@ + path[0], length as u64),
        ),
{
    lemma_keys_differ();
    let fields = seq![("length"@, Tree::Int(length)), ("path"@, Tree::List(text_trees(path)))];
    lemma_dictionary_by_key(fields, "length"@, 0);
    lemma_dictionary_by_key(fields, "path"@, 1);
    lemma_first_text(path);
}

proof fn lemma_files_are_read(
    name: Seq<char>,
    entries: Seq<BValue>,
    files: Seq<(Seq<Seq<char>>, i64)>,
)
    requires
        entries.len() == files.len(),
        forall|i: int|
            0 <= i < files.len() ==> file_of(name, #[trigger] entries[i]) == Some(
                (name + "/"@ + files[i].0[0], files[i].1 as u64),
            ),
    ensures
        files_of(name, entries).len() == files.len(),
        forall|i: int|
            0 <= i < files.len() ==> #[trigger] files_of(name, entries)[i] == (
                name + "/"@ + files[i].0[0],
                files[i].1 as u64,
            ),
    decreases entries.len(),
{
    if entries.len() > 0 {
        assert forall|i: int| 0 <= i < files.len() - 1 implies file_of(
            name,
            #[trigger] entries.drop_last()[i],
        ) == Some(
            (name + "/"@ + files.drop_last()[i].0[0], files.drop_last()[i].1 as u64),
        ) by {
            assert(entries.drop_last()[i] == entries[i]);
        }
        lemma_files_are_read(name, entries.drop_last(), files.drop_last());
        let last = entries.len() - 1;
        assert(entries.last() == entries[last]);
        assert forall|i: int| 0 <= i < files.len() implies #[trigger] files_of(name, entries)[i]
            == (name + "/"@ + files[i].0[0], files[i].1 as u64) by {
            if i < last {
                assert(files_of(name, entries)[i] == files_of(name, entries.drop_last())[i]);
            }
        }
    }
}

/// Where the file has both a path and a length, the path is not empty.
pub open spec fn has_no_empty_path(file: BValue) -> bool {
    lookup(entries_of(file), "path"@) matches Some(path) ==> lookup(entries_of(file), "length"@)
        is Some ==> items_of(path).len() > 0
}

/// A metainfo file is refused just where it has no info dictionary with a name, a length
/// of pieces and their digests, where a file has an empty path, or a group of trackers
/// is empty. A missing tracker is empty, missing groups are none, and a file without a
/// path or a length is left out.
pub proof fn lemma_what_a_metainfo_file_needs(data: Seq<u8>)
    ensures
        value_at(data, 0) is None ==> torrent_of(data) is None,
        value_at(data, 0) matches Some((value, end)) ==> {
            let entries = entries_of(value);
            &&& lookup(entries, "info"@) is None ==> torrent_of(data) is None
            &&& lookup(entries, "info"@) matches Some(info) ==> {
                let fields = entries_of(info);
                &&& !(info is Dictionary) ==> torrent_of(data) is None
                &&& lookup(fields, "name"@) is None || lookup(fields, "piece length"@) is None
                    || lookup(fields, "pieces"@) is None ==> torrent_of(data) is None
                &&& info is Dictionary && lookup(fields, "name"@) is Some && lookup(
                    fields,
                    "piece length"@,
                ) is Some && lookup(fields, "pieces"@) is Some ==> (torrent_of(data) is Some <==> (
                lookup(fields, "files"@) matches Some(files) ==> forall|i: int|
                    0 <= i < items_of(files).len() ==> has_no_empty_path(
                        #[trigger] items_of(files)[i],
                    )) && (lookup(entries, "announce-list"@) matches Some(groups) ==> forall|i: int|
                    0 <= i < items_of(groups).len() ==> items_of(
                        #[trigger] items_of(groups)[i],
                    ).len() > 0))
                &&& torrent_of(data) matches Some(torrent) ==> {
                    &&& lookup(entries, "announce"@) is None ==> torrent.announce.len() == 0
                    &&& lookup(entries, "announce-list"@) is None
                        ==> torrent.announce_list.len() == 0
                    &&& lookup(fields, "length"@) is None ==> torrent.info.length == 0
                    &&& lookup(fields, "files"@) is None ==> torrent.info.files == seq![
                        (torrent.info.name, torrent.info.length),
                    ]
                }
            }
        },
        forall|name: Seq<char>, entry: BValue|
            lookup(entries_of(entry), "path"@) is None || lookup(entries_of(entry), "length"@)
                is None ==> #[trigger] file_of(name, entry) is None,
{
    if let Some((value, end)) = value_at(data, 0) {
        if let Some(info) = lookup(entries_of(value), "info"@) {
            if let Some(files) = lookup(entries_of(info), "files"@) {
                assert forall|i: int| 0 <= i < items_of(files).len() implies has_no_empty_path(
                    #[trigger] items_of(files)[i],
                ) == file_ok(items_of(files)[i]) by {}
            }
        }
    }
}

} // verus!
