//! Numbers on the wire, and the byte buffers that messages are read from and
//! written to.
use vstd::prelude::*;

verus! {

/// The number that bytes stand for, the most significant one first.
pub open spec fn be_value(bytes: Seq<u8>) -> nat
    decreases bytes.len(),
{
    if bytes.len() == 0 {
        0
    } else {
        be_value(bytes.drop_last()) * 256 + bytes.last() as nat
    }
}

/// The lowest `count` bytes of a number, the most significant one first.
pub open spec fn be_bytes(n: nat, count: nat) -> Seq<u8>
    decreases count,
{
    if count == 0 {
        Seq::empty()
    } else {
        be_bytes(n / 256, (count - 1) as nat).push((n % 256) as u8)
    }
}

/// As many bytes are written as are asked for.
pub broadcast proof fn lemma_be_bytes_len(n: nat, count: nat)
    ensures
        #[trigger] be_bytes(n, count).len() == count,
    decreases count,
{
    if count > 0 {
        lemma_be_bytes_len(n / 256, (count - 1) as nat);
    }
}

/// The largest number, and one more, that fits in so many bytes.
pub open spec fn byte_range(count: nat) -> nat
    decreases count,
{
    if count == 0 {
        1
    } else {
        256 * byte_range((count - 1) as nat)
    }
}

/// A number that fits in `count` bytes is written in `count` bytes and read back
/// from them.
pub proof fn lemma_be_round_trip(n: nat, count: nat)
    requires
        n < byte_range(count),
    ensures
        be_bytes(n, count).len() == count,
        be_value(be_bytes(n, count)) == n,
    decreases count,
{
    if count > 0 {
        lemma_be_round_trip(n / 256, (count - 1) as nat);
        let bytes = be_bytes(n, count);
        assert(bytes.drop_last() =~= be_bytes(n / 256, (count - 1) as nat));
    }
}

/// Bytes are what their number is written in.
pub proof fn lemma_be_unique(bytes: Seq<u8>)
    ensures
        be_value(bytes) < byte_range(bytes.len()),
        be_bytes(be_value(bytes), bytes.len()) == bytes,
    decreases bytes.len(),
{
    if bytes.len() > 0 {
        lemma_be_unique(bytes.drop_last());
        assert(be_bytes(be_value(bytes), bytes.len()) =~= bytes);
    }
}

/// How many numbers fit in one, two, four, eight and sixteen bytes.
pub proof fn lemma_byte_ranges()
    ensures
        byte_range(1) == 0x100,
        byte_range(2) == 0x1_0000,
        byte_range(4) == 0x1_0000_0000,
        byte_range(8) == 0x1_0000_0000_0000_0000,
        byte_range(16) == 0x1_0000_0000_0000_0000_0000_0000_0000_0000,
{
    reveal_with_fuel(byte_range, 17);
}

/// How many bytes a buffer may hold, so that it can double its room.
pub open spec fn max_buffer() -> int {
    isize::MAX as int / 2
}

#[verifier::external_type_specification]
#[verifier::external_body]
pub struct ExBytes(bytes::Bytes);

#[verifier::external_type_specification]
#[verifier::external_body]
pub struct ExBytesMut(bytes::BytesMut);

/// What a [`bytes::Bytes`] still holds.
pub uninterp spec fn bytes_seq(data: bytes::Bytes) -> Seq<u8>;

/// What a [`bytes::BytesMut`] holds.
pub uninterp spec fn bytes_mut_seq(data: bytes::BytesMut) -> Seq<u8>;

/// `Bytes::from` on a vector: the buffer holds the vector's bytes.
#[verifier::external_body]
pub(crate) fn bytes_from(data: Vec<u8>) -> (bytes: bytes::Bytes)
    ensures
        bytes_seq(bytes) == data@,
{
    bytes::Bytes::from(data)
}

/// `Bytes::as_ref`: the bytes that the buffer still holds.
#[verifier::external_body]
pub(crate) fn bytes_slice(data: &bytes::Bytes) -> (slice: &[u8])
    ensures
        slice@ == bytes_seq(*data),
{
    data.as_ref()
}

/// `Buf::has_remaining`: whether the buffer still holds a byte.
#[verifier::external_body]
pub(crate) fn has_remaining(data: &bytes::Bytes) -> (more: bool)
    ensures
        more == (bytes_seq(*data).len() > 0),
{
    bytes::Buf::has_remaining(data)
}

/// `Buf::get_u8`: the first byte, which leaves the buffer.
#[verifier::external_body]
pub(crate) fn get_u8(data: &mut bytes::Bytes) -> (value: u8)
    requires
        bytes_seq(*old(data)).len() >= 1,
    ensures
        value == bytes_seq(*old(data))[0],
        bytes_seq(*final(data)) == bytes_seq(*old(data)).skip(1),
{
    bytes::Buf::get_u8(data)
}

/// `Buf::get_u16`: the number in the first two bytes, which leave the buffer.
#[verifier::external_body]
pub(crate) fn get_u16(data: &mut bytes::Bytes) -> (value: u16)
    requires
        bytes_seq(*old(data)).len() >= 2,
    ensures
        value == be_value(bytes_seq(*old(data)).take(2)),
        bytes_seq(*final(data)) == bytes_seq(*old(data)).skip(2),
{
    bytes::Buf::get_u16(data)
}

/// `Buf::get_u32`: the number in the first four bytes, which leave the buffer.
#[verifier::external_body]
pub(crate) fn get_u32(data: &mut bytes::Bytes) -> (value: u32)
    requires
        bytes_seq(*old(data)).len() >= 4,
    ensures
        value == be_value(bytes_seq(*old(data)).take(4)),
        bytes_seq(*final(data)) == bytes_seq(*old(data)).skip(4),
{
    bytes::Buf::get_u32(data)
}

/// `Buf::get_u128`: the number in the first sixteen bytes, which leave the
/// buffer.
#[verifier::external_body]
pub(crate) fn get_u128(data: &mut bytes::Bytes) -> (value: u128)
    requires
        bytes_seq(*old(data)).len() >= 16,
    ensures
        value == be_value(bytes_seq(*old(data)).take(16)),
        bytes_seq(*final(data)) == bytes_seq(*old(data)).skip(16),
{
    bytes::Buf::get_u128(data)
}

/// `Buf::get_u32` on a slice: the number in its first four bytes.
#[verifier::external_body]
pub(crate) fn slice_get_u32(data: &[u8]) -> (value: u32)
    requires
        data@.len() >= 4,
    ensures
        value == be_value(data@.take(4)),
{
    let mut data = data;
    bytes::Buf::get_u32(&mut data)
}

/// `BytesMut::with_capacity`: an empty buffer.
#[verifier::external_body]
pub(crate) fn bytes_mut(capacity: usize) -> (buffer: bytes::BytesMut)
    requires
        capacity <= max_buffer(),
    ensures
        bytes_mut_seq(buffer) == Seq::<u8>::empty(),
{
    bytes::BytesMut::with_capacity(capacity)
}

/// `BufMut::put_u8`: the byte is put at the end.
#[verifier::external_body]
pub(crate) fn put_u8(buffer: &mut bytes::BytesMut, value: u8)
    requires
        bytes_mut_seq(*old(buffer)).len() + 1 <= max_buffer(),
    ensures
        bytes_mut_seq(*final(buffer)) == bytes_mut_seq(*old(buffer)).push(value),
{
    bytes::BufMut::put_u8(buffer, value)
}

/// `BufMut::put_u32`: the four bytes of the number are put at the end.
#[verifier::external_body]
pub(crate) fn put_u32(buffer: &mut bytes::BytesMut, value: u32)
    requires
        bytes_mut_seq(*old(buffer)).len() + 4 <= max_buffer(),
    ensures
        bytes_mut_seq(*final(buffer)) == bytes_mut_seq(*old(buffer)) + be_bytes(value as nat, 4),
{
    bytes::BufMut::put_u32(buffer, value)
}

/// `BufMut::put_u64`: the eight bytes of the number are put at the end.
#[verifier::external_body]
pub(crate) fn put_u64(buffer: &mut bytes::BytesMut, value: u64)
    requires
        bytes_mut_seq(*old(buffer)).len() + 8 <= max_buffer(),
    ensures
        bytes_mut_seq(*final(buffer)) == bytes_mut_seq(*old(buffer)) + be_bytes(value as nat, 8),
{
    bytes::BufMut::put_u64(buffer, value)
}

/// `BufMut::put_slice`: the bytes are put at the end.
#[verifier::external_body]
pub(crate) fn put_slice(buffer: &mut bytes::BytesMut, data: &[u8])
    requires
        bytes_mut_seq(*old(buffer)).len() + data@.len() <= max_buffer(),
    ensures
        bytes_mut_seq(*final(buffer)) == bytes_mut_seq(*old(buffer)) + data@,
{
    bytes::BufMut::put_slice(buffer, data)
}

/// `BytesMut::freeze`: the buffer, no longer to be written.
#[verifier::external_body]
pub(crate) fn freeze(buffer: bytes::BytesMut) -> (data: bytes::Bytes)
    ensures
        bytes_seq(data) == bytes_mut_seq(buffer),
{
    buffer.freeze()
}

/// Puts the lowest `count` bytes of a number at the end of a vector, the most
/// significant one first.
pub fn push_be(data: &mut Vec<u8>, n: u64, count: u32)
    ensures
        final(data)@ == old(data)@ + be_bytes(n as nat, count as nat),
    decreases count,
{
    if count > 0 {
        push_be(data, n / 256, count - 1);
        data.push((n % 256) as u8);
    }
    assert(data@ =~= old(data)@ + be_bytes(n as nat, count as nat));
}

} // verus!
