//! Looking for a byte.
use vstd::prelude::*;

verus! {

/// The first place from `pos` on at which the byte stands.
pub open spec fn find_from(data: Seq<u8>, pos: int, byte: u8) -> Option<int>
    decreases data.len() - pos,
{
    if pos < 0 || pos >= data.len() {
        None
    } else if data[pos] == byte {
        Some(pos)
    } else {
        find_from(data, pos + 1, byte)
    }
}

/// What [`find_from`] finds is the byte, at or behind where the search began.
pub proof fn lemma_find_from(data: Seq<u8>, pos: int, byte: u8)
    requires
        0 <= pos,
    ensures
        match find_from(data, pos, byte) {
            Some(i) => pos <= i < data.len() && data[i] == byte && (forall|j: int|
                pos <= j < i ==> data[j] != byte),
            None => forall|j: int| pos <= j < data.len() ==> data[j] != byte,
        },
    decreases data.len() - pos,
{
    if pos < data.len() && data[pos] != byte {
        lemma_find_from(data, pos + 1, byte);
    }
}

/// A byte that is found is found at the same place when more bytes follow.
pub proof fn lemma_find_from_prefix(data: Seq<u8>, rest: Seq<u8>, pos: int, byte: u8)
    requires
        0 <= pos,
    ensures
        find_from(data, pos, byte) is Some ==> find_from(data + rest, pos, byte) == find_from(
            data,
            pos,
            byte,
        ),
    decreases data.len() - pos,
{
    if pos < data.len() && data[pos] != byte {
        lemma_find_from_prefix(data, rest, pos + 1, byte);
    }
}

/// What was read, as far behind as bytes stand before.
pub open spec fn shifted<T>(read: Option<(T, int)>, by: int) -> Option<(T, int)> {
    match read {
        Some((value, end)) => Some((value, by + end)),
        None => None,
    }
}

/// A byte that is found is found as far behind when more bytes stand before.
pub proof fn lemma_find_from_shift(before: Seq<u8>, data: Seq<u8>, pos: int, byte: u8)
    requires
        0 <= pos,
    ensures
        find_from(before + data, before.len() + pos, byte) == (match find_from(data, pos, byte) {
            Some(i) => Some(before.len() + i),
            None => None,
        }),
    decreases data.len() - pos,
{
    if pos < data.len() && data[pos] != byte {
        lemma_find_from_shift(before, data, pos + 1, byte);
    }
}

/// The first place from `pos` on at which the byte stands.
pub fn find_byte(data: &[u8], pos: usize, byte: u8) -> (at: Option<usize>)
    ensures
        match at {
            Some(i) => find_from(data@, pos as int, byte) == Some(i as int) && pos <= i
                < data@.len() <= usize::MAX,
            None => find_from(data@, pos as int, byte) is None,
        },
{
    let mut i: usize = pos;
    while i < data.len()
        invariant
            pos <= i,
            find_from(data@, pos as int, byte) == find_from(data@, i as int, byte),
        decreases data@.len() - i,
    {
        if data[i] == byte {
            return Some(i);
        }
        i = i + 1;
    }
    None
}

/// The bytes from `from` up to `to`.
pub fn copy_range(data: &[u8], from: usize, to: usize) -> (bytes: Vec<u8>)
    requires
        from <= to <= data@.len(),
    ensures
        bytes@ == data@.subrange(from as int, to as int),
{
    let mut bytes: Vec<u8> = Vec::with_capacity(to - from);
    let mut i: usize = from;
    while i < to
        invariant
            from <= i <= to <= data@.len(),
            bytes@ == data@.subrange(from as int, i as int),
        decreases to - i,
    {
        bytes.push(data[i]);
        i = i + 1;
        assert(bytes@ =~= data@.subrange(from as int, i as int));
    }
    bytes
}

/// Whether two byte strings are the same.
pub fn same_bytes(a: &[u8], b: &[u8]) -> (same: bool)
    ensures
        same == (a@ == b@),
{
    if a.len() != b.len() {
        return false;
    }
    let mut i: usize = 0;
    while i < a.len()
        invariant
            i <= a@.len(),
            a@.len() == b@.len(),
            forall|j: int| 0 <= j < i ==> a@[j] == b@[j],
        decreases a@.len() - i,
    {
        if a[i] != b[i] {
            return false;
        }
        i = i + 1;
    }
    assert(a@ =~= b@);
    true
}

/// A copy of a byte string.
pub fn copy_bytes(data: &[u8]) -> (bytes: Vec<u8>)
    ensures
        bytes@ == data@,
{
    let bytes = copy_range(data, 0, data.len());
    assert(bytes@ =~= data@);
    bytes
}

/// The pieces of twenty bytes into which a byte string falls, the last one
/// shorter where the length is no multiple of twenty.
pub open spec fn chunks_of_20(bytes: Seq<u8>) -> Seq<Seq<u8>> {
    Seq::new(
        ((bytes.len() + 19) / 20) as nat,
        |i: int|
            bytes.subrange(
                20 * i,
                if 20 * i + 20 <= bytes.len() {
                    20 * i + 20
                } else {
                    bytes.len() as int
                },
            ),
    )
}

/// The pieces hold the byte string, each byte in its place.
pub proof fn lemma_chunks_of_20(bytes: Seq<u8>, at: int)
    requires
        0 <= at < bytes.len(),
    ensures
        at / 20 < chunks_of_20(bytes).len(),
        at % 20 < chunks_of_20(bytes)[at / 20].len(),
        chunks_of_20(bytes)[at / 20][at % 20] == bytes[at],
{
}

/// The contents of each vector.
pub open spec fn contents(list: Seq<Vec<u8>>) -> Seq<Seq<u8>> {
    Seq::new(list.len(), |i: int| list[i]@)
}

/// Cuts a byte string into pieces of twenty bytes.
pub fn split_chunks(bytes: &[u8]) -> (chunks: Vec<Vec<u8>>)
    ensures
        contents(chunks@) == chunks_of_20(bytes@),
{
    let mut chunks: Vec<Vec<u8>> = Vec::new();
    let mut from: usize = 0;
    while from < bytes.len()
        invariant
            from <= bytes@.len(),
            from == bytes@.len() || from == 20 * chunks@.len(),
            chunks@.len() <= (bytes@.len() + 19) / 20,
            from == bytes@.len() ==> chunks@.len() == (bytes@.len() + 19) / 20,
            forall|i: int|
                0 <= i < chunks@.len() ==> (#[trigger] chunks@[i])@ == chunks_of_20(bytes@)[i],
        decreases bytes@.len() - from,
    {
        let to: usize = if bytes.len() - from >= 20 {
            from + 20
        } else {
            bytes.len()
        };
        let ghost before = chunks@;
        chunks.push(copy_range(bytes, from, to));
        assert(chunks@ =~= before.push(chunks@.last()));
        from = to;
    }
    assert(contents(chunks@) =~= chunks_of_20(bytes@));
    chunks
}

} // verus!
