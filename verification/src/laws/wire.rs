//! What the messages of the protocol look like on the wire.
use vstd::prelude::*;

use crate::bits::{byte_count, packed, unpacked, lemma_byte_count, lemma_byte_of};
use crate::engine::peer::message::{MessageValue, decoded, encoded, word_at, sendable};
use crate::wire::{be_bytes, be_value, lemma_be_bytes_len};

verus! {

/// The number in the four bytes from `at` on, the most significant one first.
pub open spec fn quad(bytes: Seq<u8>, at: int) -> int {
    16777216 * bytes[at] + 65536 * bytes[at + 1] + 256 * bytes[at + 2] + bytes[at + 3]
}

/// Numbers are written and read with the most significant byte first.
pub proof fn lemma_big_endian(bytes: Seq<u8>, n: nat)
    ensures
        bytes.len() == 2 ==> be_value(bytes) == 256 * bytes[0] + bytes[1],
        bytes.len() == 4 ==> be_value(bytes) == quad(bytes, 0),
        n < 0x1_0000 ==> 256 * be_bytes(n, 2)[0] + be_bytes(n, 2)[1] == n,
        n < 0x1_0000_0000 ==> quad(be_bytes(n, 4), 0) == n,
        be_bytes(n, 4).len() == 4,
        be_bytes(n, 2).len() == 2,
{
    reveal_with_fuel(be_value, 5);
    reveal_with_fuel(be_bytes, 5);
    if bytes.len() == 4 {
        let a = bytes.drop_last();
        let b = a.drop_last();
        let c = b.drop_last();
        assert(a.last() == bytes[2] && b.last() == bytes[1] && c.last() == bytes[0]);
        assert(be_value(c) == bytes[0] as nat);
        assert(be_value(b) == be_value(c) * 256 + bytes[1] as nat);
        assert(be_value(a) == be_value(b) * 256 + bytes[2] as nat);
    }
    if bytes.len() == 2 {
        let a = bytes.drop_last();
        assert(a.last() == bytes[0]);
        assert(be_value(a) == bytes[0] as nat);
    }
    let four = be_bytes(n, 4);
    let (q, r, s) = (n / 256, n / 256 / 256, n / 256 / 256 / 256);
    assert(four.len() == 4);
    assert(four[3] == (n % 256) as u8 && four[2] == (q % 256) as u8 && four[1] == (r % 256) as u8
        && four[0] == (s % 256) as u8);
}

/// The number at a place of the bytes of a message.
proof fn lemma_word_at(data: Seq<u8>, at: int)
    requires
        0 <= at,
        at + 4 <= data.len(),
    ensures
        word_at(data, at) == quad(data, at),
{
    let four = data.skip(at).take(4);
    lemma_big_endian(four, 0);
    assert(four[0] == data[at] && four[1] == data[at + 1] && four[2] == data[at + 2] && four[3]
        == data[at + 3]);
}

/// A flag of a field of bits is a bit of the byte with eight flags in it, counted from
/// the most significant one.
pub open spec fn is_flag(byte: u8, place: int, flag: bool) -> bool {
    flag == ((byte >> ((7 - place) as u8)) & 1u8 == 1u8)
}

/// The first byte behind the length says what a message is; the numbers of a message
/// stand behind it in four bytes each, and what comes behind them is the block or the
/// field of bits.
pub proof fn lemma_message_is_read_by_its_layout(data: Seq<u8>)
    ensures
        data.len() == 0 ==> decoded(data) == Some(MessageValue::KeepAlive),
        data.len() > 0 ==> match decoded(data) {
            None => {
                ||| data[0] == 4 && data.len() < 5
                ||| data[0] == 6 && data.len() < 13
                ||| data[0] == 7 && data.len() < 9
                ||| data[0] == 8 && data.len() < 13
            },
            Some(MessageValue::KeepAlive) => false,
            Some(MessageValue::Choke) => data[0] == 0,
            Some(MessageValue::Unchoke) => data[0] == 1,
            Some(MessageValue::Interested) => data[0] == 2,
            Some(MessageValue::NotInterested) => data[0] == 3,
            Some(MessageValue::Have { piece }) => data[0] == 4 && data.len() >= 5 && piece == quad(
                data,
                1,
            ),
            Some(MessageValue::Bitfield { pieces }) => {
                &&& data[0] == 5
                &&& pieces.len() == 8 * (data.len() - 1)
                &&& forall|i: int|
                    0 <= i < pieces.len() ==> is_flag(data[1 + i / 8], i % 8, #[trigger] pieces[i])
            },
            Some(MessageValue::Request { piece_idx, block_offset, block_length }) => {
                &&& data[0] == 6 && data.len() >= 13
                &&& piece_idx == quad(data, 1)
                &&& block_offset == quad(data, 5)
                &&& block_length == quad(data, 9)
            },
            Some(MessageValue::Piece { piece_idx, block_offset, block_data }) => {
                &&& data[0] == 7 && data.len() >= 9
                &&& piece_idx == quad(data, 1)
                &&& block_offset == quad(data, 5)
                &&& block_data == data.skip(9)
            },
            Some(MessageValue::Cancel { piece_idx, block_offset, block_length }) => {
                &&& data[0] == 8 && data.len() >= 13
                &&& piece_idx == quad(data, 1)
                &&& block_offset == quad(data, 5)
                &&& block_length == quad(data, 9)
            },
            Some(MessageValue::Unknown(kind)) => kind == data[0] && kind > 8,
        },
{
    if data.len() >= 5 {
        lemma_word_at(data, 1);
    }
    if data.len() >= 9 {
        lemma_word_at(data, 5);
    }
    if data.len() >= 13 {
        lemma_word_at(data, 9);
    }
    if data.len() > 0 && data[0] == 5 {
        let pieces = unpacked(data.skip(1));
        assert forall|i: int| 0 <= i < pieces.len() implies is_flag(
            data[1 + i / 8],
            i % 8,
            #[trigger] pieces[i],
        ) by {
            assert(data.skip(1)[i / 8] == data[1 + i / 8]);
        }
    }
}

/// A message is written as the number of the bytes that follow, in four bytes, the
/// number of its kind, and what it says: its numbers in four bytes each, then the block
/// or the field of bits.
pub proof fn lemma_message_is_written_by_its_layout(message: MessageValue)
    requires
        sendable(message),
        message matches MessageValue::Bitfield { pieces } ==> pieces.len() <= 16777216,
        message matches MessageValue::Piece { block_data, .. } ==> block_data.len() + 9 <= u32::MAX,
    ensures
        ({
            let bytes = encoded(message);
            match message {
                MessageValue::KeepAlive => bytes == seq![0u8, 0, 0, 0, 0],
                MessageValue::Choke => bytes == seq![0u8, 0, 0, 1, 0],
                MessageValue::Unchoke => bytes == seq![0u8, 0, 0, 1, 1],
                MessageValue::Interested => bytes == seq![0u8, 0, 0, 1, 2],
                MessageValue::NotInterested => bytes == seq![0u8, 0, 0, 1, 3],
                MessageValue::Have { piece } => {
                    &&& bytes.len() == 9 && quad(bytes, 0) == 5 && bytes[4] == 4
                    &&& quad(bytes, 5) == piece
                },
                MessageValue::Bitfield { pieces } => {
                    &&& quad(bytes, 0) == bytes.len() - 4 && bytes[4] == 5
                    &&& 8 * (bytes.len() - 6) < pieces.len() <= 8 * (bytes.len() - 5)
                        || pieces.len() == 0 && bytes.len() == 5
                    &&& forall|i: int|
                        0 <= i < pieces.len() ==> is_flag(
                            bytes[5 + i / 8],
                            i % 8,
                            #[trigger] pieces[i],
                        )
                    &&& forall|i: int|
                        pieces.len() <= i < 8 * (bytes.len() - 5) ==> #[trigger] is_flag(
                            bytes[5 + i / 8],
                            i % 8,
                            false,
                        )
                },
                MessageValue::Request { piece_idx, block_offset, block_length } => {
                    &&& bytes.len() == 17 && quad(bytes, 0) == 13 && bytes[4] == 6
                    &&& quad(bytes, 5) == piece_idx
                    &&& quad(bytes, 9) == block_offset
                    &&& quad(bytes, 13) == block_length
                },
                MessageValue::Piece { piece_idx, block_offset, block_data } => {
                    &&& bytes.len() == 13 + block_data.len() && quad(bytes, 0) == bytes.len() - 4
                    &&& bytes[4] == 7
                    &&& quad(bytes, 5) == piece_idx
                    &&& quad(bytes, 9) == block_offset
                    &&& bytes.skip(13) == block_data
                },
                MessageValue::Cancel { piece_idx, block_offset, block_length } => {
                    &&& bytes.len() == 17 && quad(bytes, 0) == 13 && bytes[4] == 8
                    &&& quad(bytes, 5) == piece_idx
                    &&& quad(bytes, 9) == block_offset
                    &&& quad(bytes, 13) == block_length
                },
                MessageValue::Unknown(_) => false,
            }
        }),
{
    broadcast use lemma_be_bytes_len;

    let bytes = encoded(message);
    match message {
        MessageValue::Have { piece } => {
            lemma_big_endian(Seq::empty(), 5);
            lemma_big_endian(Seq::empty(), piece as nat);
        },
        MessageValue::Bitfield { pieces } => {
            let data = packed(pieces, byte_count(pieces.len()));
            lemma_byte_count(pieces.len());
            lemma_big_endian(Seq::empty(), (data.len() + 1) as nat);
            assert forall|i: int| 0 <= i < pieces.len() implies is_flag(
                bytes[5 + i / 8],
                i % 8,
                #[trigger] pieces[i],
            ) by {
                lemma_byte_of(pieces, 8 * (i / 8), i % 8);
                assert(bytes[5 + i / 8] == data[i / 8]);
            }
            assert forall|i: int|
                pieces.len() <= i < 8 * (bytes.len() - 5) implies #[trigger] is_flag(
                bytes[5 + i / 8],
                i % 8,
                false,
            ) by {
                lemma_byte_of(pieces, 8 * (i / 8), i % 8);
                assert(bytes[5 + i / 8] == data[i / 8]);
            }
        },
        MessageValue::Request { piece_idx, block_offset, block_length } => {
            lemma_three(6, piece_idx, block_offset, block_length);
        },
        MessageValue::Cancel { piece_idx, block_offset, block_length } => {
            lemma_three(8, piece_idx, block_offset, block_length);
        },
        MessageValue::Piece { piece_idx, block_offset, block_data } => {
            lemma_big_endian(Seq::empty(), (9 + block_data.len()) as nat);
            lemma_big_endian(Seq::empty(), piece_idx as nat);
            lemma_big_endian(Seq::empty(), block_offset as nat);
            assert(bytes.skip(13) =~= block_data);
        },
        _ => {},
    }
}

proof fn lemma_three(kind: u8, a: u32, b: u32, c: u32)
    ensures
        ({
            let bytes = be_bytes(13, 4).push(kind) + (be_bytes(a as nat, 4) + be_bytes(b as nat, 4)
                + be_bytes(c as nat, 4));
            &&& bytes.len() == 17 && quad(bytes, 0) == 13 && bytes[4] == kind
            &&& quad(bytes, 5) == a
            &&& quad(bytes, 9) == b
            &&& quad(bytes, 13) == c
        }),
{
    lemma_big_endian(Seq::empty(), 13);
    lemma_big_endian(Seq::empty(), a as nat);
    lemma_big_endian(Seq::empty(), b as nat);
    lemma_big_endian(Seq::empty(), c as nat);
}

/// Every message of a known kind can be sent that fits in half of the address space.
pub proof fn lemma_what_can_be_sent(message: MessageValue)
    ensures
        sendable(message) <==> !(message is Unknown) && encoded(message).len() <= isize::MAX / 2,
{
    broadcast use lemma_be_bytes_len;

}

} // verus!
