//! The messages that peers send each other.
use vstd::prelude::*;

use crate::bits::{byte_count, flag_at, lemma_byte_count, lemma_unpack_packed, packed, unpacked};
use crate::engine::peer::Bitfield;
use crate::scan::copy_bytes;
use crate::wire::{
    be_bytes, be_value, bytes_from, bytes_mut, bytes_seq, bytes_slice, freeze, get_u32, get_u8,
    has_remaining, lemma_be_bytes_len, lemma_be_round_trip, lemma_byte_ranges, max_buffer, put_slice,
    put_u32, put_u8,
};

verus! {

/// A message to or from a peer.
pub enum Message {
    KeepAlive,
    Choke,
    Unchoke,
    Interested,
    NotInterested,
    Have { piece: u32 },
    Bitfield { bitfield: Bitfield },
    Request { piece_idx: u32, block_offset: u32, block_length: u32 },
    Piece { piece_idx: u32, block_offset: u32, block_data: Vec<u8> },
    Cancel { piece_idx: u32, block_offset: u32, block_length: u32 },
    /// A message whose kind is none of the above.
    Unknown(u8),
}

/// What a message says.
pub enum MessageValue {
    KeepAlive,
    Choke,
    Unchoke,
    Interested,
    NotInterested,
    Have { piece: u32 },
    Bitfield { pieces: Seq<bool> },
    Request { piece_idx: u32, block_offset: u32, block_length: u32 },
    Piece { piece_idx: u32, block_offset: u32, block_data: Seq<u8> },
    Cancel { piece_idx: u32, block_offset: u32, block_length: u32 },
    Unknown(u8),
}

impl View for Message {
    type V = MessageValue;

    open spec fn view(&self) -> MessageValue {
        match *self {
            Message::KeepAlive => MessageValue::KeepAlive,
            Message::Choke => MessageValue::Choke,
            Message::Unchoke => MessageValue::Unchoke,
            Message::Interested => MessageValue::Interested,
            Message::NotInterested => MessageValue::NotInterested,
            Message::Have { piece } => MessageValue::Have { piece },
            Message::Bitfield { bitfield } => MessageValue::Bitfield { pieces: bitfield@ },
            Message::Request { piece_idx, block_offset, block_length } => MessageValue::Request {
                piece_idx,
                block_offset,
                block_length,
            },
            Message::Piece { piece_idx, block_offset, block_data } => MessageValue::Piece {
                piece_idx,
                block_offset,
                block_data: block_data@,
            },
            Message::Cancel { piece_idx, block_offset, block_length } => MessageValue::Cancel {
                piece_idx,
                block_offset,
                block_length,
            },
            Message::Unknown(kind) => MessageValue::Unknown(kind),
        }
    }
}

impl Clone for Message {
    fn clone(&self) -> (copy: Message)
        ensures
            copy@ == self@,
    {
        match self {
            Message::KeepAlive => Message::KeepAlive,
            Message::Choke => Message::Choke,
            Message::Unchoke => Message::Unchoke,
            Message::Interested => Message::Interested,
            Message::NotInterested => Message::NotInterested,
            Message::Have { piece } => Message::Have { piece: *piece },
            Message::Bitfield { bitfield } => Message::Bitfield { bitfield: bitfield.clone() },
            Message::Request { piece_idx, block_offset, block_length } => Message::Request {
                piece_idx: *piece_idx,
                block_offset: *block_offset,
                block_length: *block_length,
            },
            Message::Piece { piece_idx, block_offset, block_data } => Message::Piece {
                piece_idx: *piece_idx,
                block_offset: *block_offset,
                block_data: copy_bytes(block_data.as_slice()),
            },
            Message::Cancel { piece_idx, block_offset, block_length } => Message::Cancel {
                piece_idx: *piece_idx,
                block_offset: *block_offset,
                block_length: *block_length,
            },
            Message::Unknown(kind) => Message::Unknown(*kind),
        }
    }
}

/// The number in the four bytes from `at` on.
pub open spec fn word_at(data: Seq<u8>, at: int) -> u32 {
    be_value(data.skip(at).take(4)) as u32
}

/// What the bytes behind the length of a message say, or nothing where they are
/// too few for the kind of message that they begin with.
pub open spec fn decoded(data: Seq<u8>) -> Option<MessageValue> {
    if data.len() == 0 {
        Some(MessageValue::KeepAlive)
    } else if data[0] == 0 {
        Some(MessageValue::Choke)
    } else if data[0] == 1 {
        Some(MessageValue::Unchoke)
    } else if data[0] == 2 {
        Some(MessageValue::Interested)
    } else if data[0] == 3 {
        Some(MessageValue::NotInterested)
    } else if data[0] == 4 {
        if data.len() >= 5 {
            Some(MessageValue::Have { piece: word_at(data, 1) })
        } else {
            None
        }
    } else if data[0] == 5 {
        Some(MessageValue::Bitfield { pieces: unpacked(data.skip(1)) })
    } else if data[0] == 6 {
        if data.len() >= 13 {
            Some(
                MessageValue::Request {
                    piece_idx: word_at(data, 1),
                    block_offset: word_at(data, 5),
                    block_length: word_at(data, 9),
                },
            )
        } else {
            None
        }
    } else if data[0] == 7 {
        if data.len() >= 9 {
            Some(
                MessageValue::Piece {
                    piece_idx: word_at(data, 1),
                    block_offset: word_at(data, 5),
                    block_data: data.skip(9),
                },
            )
        } else {
            None
        }
    } else if data[0] == 8 {
        if data.len() >= 13 {
            Some(
                MessageValue::Cancel {
                    piece_idx: word_at(data, 1),
                    block_offset: word_at(data, 5),
                    block_length: word_at(data, 9),
                },
            )
        } else {
            None
        }
    } else {
        Some(MessageValue::Unknown(data[0]))
    }
}

/// Three numbers, four bytes each.
pub open spec fn three_words(a: u32, b: u32, c: u32) -> Seq<u8> {
    be_bytes(a as nat, 4) + be_bytes(b as nat, 4) + be_bytes(c as nat, 4)
}

/// The bytes of a message: its length in four bytes, its kind and its contents.
pub open spec fn encoded(message: MessageValue) -> Seq<u8> {
    match message {
        MessageValue::KeepAlive => seq![0u8, 0, 0, 0, 0],
        MessageValue::Choke => seq![0u8, 0, 0, 1, 0],
        MessageValue::Unchoke => seq![0u8, 0, 0, 1, 1],
        MessageValue::Interested => seq![0u8, 0, 0, 1, 2],
        MessageValue::NotInterested => seq![0u8, 0, 0, 1, 3],
        MessageValue::Have { piece } => be_bytes(5, 4).push(4) + be_bytes(piece as nat, 4),
        MessageValue::Bitfield { pieces } => {
            let data = packed(pieces, byte_count(pieces.len()));
            be_bytes((data.len() + 1) as u32 as nat, 4).push(5) + data
        },
        MessageValue::Request { piece_idx, block_offset, block_length } => be_bytes(13, 4).push(6)
            + three_words(piece_idx, block_offset, block_length),
        MessageValue::Piece { piece_idx, block_offset, block_data } => be_bytes(
            (9 + block_data.len()) as u32 as nat,
            4,
        ).push(7) + be_bytes(piece_idx as nat, 4) + be_bytes(block_offset as nat, 4) + block_data,
        MessageValue::Cancel { piece_idx, block_offset, block_length } => be_bytes(13, 4).push(8)
            + three_words(piece_idx, block_offset, block_length),
        MessageValue::Unknown(kind) => Seq::empty(),
    }
}

/// The message is one that can be sent: its kind is known, and it fits in a
/// buffer.
pub open spec fn sendable(message: MessageValue) -> bool {
    match message {
        MessageValue::Bitfield { pieces } => byte_count(pieces.len()) + 5 <= max_buffer(),
        MessageValue::Piece { block_data, .. } => block_data.len() + 13 <= max_buffer(),
        MessageValue::Unknown(_) => false,
        _ => true,
    }
}

impl Message {
    /// Reads the bytes behind the length of a message, or nothing where they are
    /// too few for their kind.
    pub fn try_from_bytes(data: bytes::Bytes) -> (message: Option<Message>)
        ensures
            match message {
                Some(m) => decoded(bytes_seq(data)) == Some(m@),
                None => decoded(bytes_seq(data)) is None,
            },
    {
        let mut data = data;
        let ghost all = bytes_seq(data);
        if !has_remaining(&data) {
            return Some(Message::KeepAlive);
        }
        let length: usize = bytes_slice(&data).len();
        let kind: u8 = get_u8(&mut data);
        if kind == 0 {
            Some(Message::Choke)
        } else if kind == 1 {
            Some(Message::Unchoke)
        } else if kind == 2 {
            Some(Message::Interested)
        } else if kind == 3 {
            Some(Message::NotInterested)
        } else if kind == 4 {
            if length < 5 {
                return None;
            }
            Some(Message::Have { piece: get_u32(&mut data) })
        } else if kind == 5 {
            Some(Message::Bitfield { bitfield: Bitfield::from_peer_data(bytes_slice(&data)) })
        } else if kind == 6 || kind == 8 {
            if length < 13 {
                return None;
            }
            let piece_idx: u32 = get_u32(&mut data);
            assert(bytes_seq(data) =~= all.skip(5));
            let block_offset: u32 = get_u32(&mut data);
            assert(bytes_seq(data) =~= all.skip(9));
            let block_length: u32 = get_u32(&mut data);
            if kind == 6 {
                Some(Message::Request { piece_idx, block_offset, block_length })
            } else {
                Some(Message::Cancel { piece_idx, block_offset, block_length })
            }
        } else if kind == 7 {
            if length < 9 {
                return None;
            }
            let piece_idx: u32 = get_u32(&mut data);
            assert(bytes_seq(data) =~= all.skip(5));
            let block_offset: u32 = get_u32(&mut data);
            assert(bytes_seq(data) =~= all.skip(9));
            let block_data = copy_bytes(bytes_slice(&data));
            Some(Message::Piece { piece_idx, block_offset, block_data })
        } else {
            Some(Message::Unknown(kind))
        }
    }

    /// Reads the bytes behind the length of a message.
    pub fn from_bytes(data: bytes::Bytes) -> (message: Message)
        requires
            decoded(bytes_seq(data)) is Some,
        ensures
            decoded(bytes_seq(data)) == Some(message@),
    {
        Message::try_from_bytes(data).unwrap()
    }

    /// Whether the message is one that can be sent.
    pub fn can_send(&self) -> (can: bool)
        ensures
            can == sendable(self@),
    {
        let room: usize = isize::MAX as usize / 2;
        match self {
            Message::Bitfield { bitfield } => bitfield.as_bytes().len() <= room - 5,
            Message::Piece { block_data, .. } => block_data.len() <= room - 13,
            Message::Unknown(_) => false,
            _ => true,
        }
    }

    /// The bytes of the message.
    pub fn to_bytes(self) -> (data: bytes::Bytes)
        requires
            sendable(self@),
        ensures
            bytes_seq(data) == encoded(self@),
    {
        broadcast use lemma_be_bytes_len;

        match self {
            Message::KeepAlive => bytes_from(vec![0, 0, 0, 0, 0]),
            Message::Choke => bytes_from(vec![0, 0, 0, 1, 0]),
            Message::Unchoke => bytes_from(vec![0, 0, 0, 1, 1]),
            Message::Interested => bytes_from(vec![0, 0, 0, 1, 2]),
            Message::NotInterested => bytes_from(vec![0, 0, 0, 1, 3]),
            Message::Have { piece } => {
                let mut message = bytes_mut(12);
                put_u32(&mut message, 5);
                put_u8(&mut message, 4);
                put_u32(&mut message, piece);
                freeze(message)
            },
            Message::Bitfield { bitfield } => {
                let bitfield = bitfield.as_bytes();
                let mut message = bytes_mut(bitfield.len() + 5);
                put_u32(&mut message, (bitfield.len() + 1) as u32);
                put_u8(&mut message, 5);
                put_slice(&mut message, bitfield.as_slice());
                freeze(message)
            },
            Message::Request { piece_idx, block_offset, block_length } => {
                let mut message = bytes_mut(17);
                put_u32(&mut message, 13);
                put_u8(&mut message, 6);
                put_u32(&mut message, piece_idx);
                put_u32(&mut message, block_offset);
                put_u32(&mut message, block_length);
                freeze(message)
            },
            Message::Piece { piece_idx, block_offset, block_data } => {
                let mut message = bytes_mut(12 + block_data.len());
                put_u32(&mut message, (9 + block_data.len()) as u32);
                put_u8(&mut message, 7);
                put_u32(&mut message, piece_idx);
                put_u32(&mut message, block_offset);
                put_slice(&mut message, block_data.as_slice());
                freeze(message)
            },
            Message::Cancel { piece_idx, block_offset, block_length } => {
                let mut message = bytes_mut(17);
                put_u32(&mut message, 13);
                put_u8(&mut message, 8);
                put_u32(&mut message, piece_idx);
                put_u32(&mut message, block_offset);
                put_u32(&mut message, block_length);
                freeze(message)
            },
            Message::Unknown(kind) => bytes_from(Vec::new()),
        }
    }
}

/// What a message is called.
pub open spec fn label(message: MessageValue) -> Seq<char> {
    match message {
        MessageValue::KeepAlive => "Keep Alive"@,
        MessageValue::Choke => "Choke"@,
        MessageValue::Unchoke => "Unchoke"@,
        MessageValue::Interested => "Interested"@,
        MessageValue::NotInterested => "Not Interested"@,
        MessageValue::Have { .. } => "Have"@,
        MessageValue::Bitfield { .. } => "Bitfield"@,
        MessageValue::Request { .. } => "Request"@,
        MessageValue::Piece { .. } => "Piece"@,
        MessageValue::Cancel { .. } => "Cancel"@,
        MessageValue::Unknown(_) => "Unknown"@,
    }
}

impl Message {
    /// What the message is called.
    pub fn to_text(&self) -> (text: String)
        ensures
            text@ == label(self@),
    {
        match self {
            Message::KeepAlive => "Keep Alive".to_owned(),
            Message::Choke => "Choke".to_owned(),
            Message::Unchoke => "Unchoke".to_owned(),
            Message::Interested => "Interested".to_owned(),
            Message::NotInterested => "Not Interested".to_owned(),
            Message::Have { .. } => "Have".to_owned(),
            Message::Bitfield { .. } => "Bitfield".to_owned(),
            Message::Request { .. } => "Request".to_owned(),
            Message::Piece { .. } => "Piece".to_owned(),
            Message::Cancel { .. } => "Cancel".to_owned(),
            Message::Unknown(_) => "Unknown".to_owned(),
        }
    }
}

/// The words behind a message's kind, as they were written.
proof fn lemma_words(length: nat, kind: u8, a: u32, b: u32, rest: Seq<u8>)
    ensures
        ({
            let data = (be_bytes(length, 4).push(kind) + be_bytes(a as nat, 4) + be_bytes(
                b as nat,
                4,
            ) + rest).skip(4);
            &&& data.len() == 9 + rest.len()
            &&& data[0] == kind
            &&& word_at(data, 1) == a
            &&& word_at(data, 5) == b
            &&& data.skip(9) == rest
        }),
{
    broadcast use lemma_be_bytes_len;

    lemma_byte_ranges();
    lemma_be_round_trip(a as nat, 4);
    lemma_be_round_trip(b as nat, 4);
    let data = (be_bytes(length, 4).push(kind) + be_bytes(a as nat, 4) + be_bytes(b as nat, 4)
        + rest).skip(4);
    assert(data.skip(1).take(4) =~= be_bytes(a as nat, 4));
    assert(data.skip(5).take(4) =~= be_bytes(b as nat, 4));
    assert(data.skip(9) =~= rest);
}

/// The pieces of a bitfield once it has been sent: with pieces that are not
/// there up to the end of the last byte.
pub open spec fn padded(pieces: Seq<bool>) -> Seq<bool> {
    Seq::new(8 * byte_count(pieces.len()), |i: int| flag_at(pieces, i))
}

/// A message that was sent is the message that is read from the bytes behind
/// its length. A bitfield comes back with its last byte filled up.
///
/// A keep-alive message carries one byte more than its length says, so it is
/// not read back from its bytes.
pub proof fn lemma_message_round_trip(message: MessageValue)
    requires
        !(message is KeepAlive),
        !(message is Unknown),
    ensures
        decoded(encoded(message).skip(4)) == Some(
            match message {
                MessageValue::Bitfield { pieces } => MessageValue::Bitfield {
                    pieces: padded(pieces),
                },
                _ => message,
            },
        ),
{
    broadcast use lemma_be_bytes_len;

    lemma_byte_ranges();
    let data = encoded(message).skip(4);
    match message {
        MessageValue::Have { piece } => {
            lemma_be_round_trip(piece as nat, 4);
            assert(data.skip(1).take(4) =~= be_bytes(piece as nat, 4));
        },
        MessageValue::Bitfield { pieces } => {
            let count = byte_count(pieces.len());
            lemma_unpack_packed(pieces, count);
            assert(data.skip(1) =~= packed(pieces, count));
            assert(unpacked(data.skip(1)) =~= padded(pieces));
        },
        MessageValue::Request { piece_idx, block_offset, block_length } => {
            lemma_three_words(6, piece_idx, block_offset, block_length);
        },
        MessageValue::Piece { piece_idx, block_offset, block_data } => {
            lemma_words(
                (9 + block_data.len()) as u32 as nat,
                7,
                piece_idx,
                block_offset,
                block_data,
            );
        },
        MessageValue::Cancel { piece_idx, block_offset, block_length } => {
            lemma_three_words(8, piece_idx, block_offset, block_length);
        },
        _ => {},
    }
}

proof fn lemma_three_words(kind: u8, a: u32, b: u32, c: u32)
    ensures
        ({
            let data = (be_bytes(13, 4).push(kind) + three_words(a, b, c)).skip(4);
            &&& data.len() == 13
            &&& data[0] == kind
            &&& word_at(data, 1) == a
            &&& word_at(data, 5) == b
            &&& word_at(data, 9) == c
        }),
{
    broadcast use lemma_be_bytes_len;

    let data = (be_bytes(13, 4).push(kind) + three_words(a, b, c)).skip(4);
    lemma_words(13, kind, a, b, be_bytes(c as nat, 4));
    assert(be_bytes(13, 4).push(kind) + three_words(a, b, c) =~= be_bytes(13, 4).push(kind)
        + be_bytes(a as nat, 4) + be_bytes(b as nat, 4) + be_bytes(c as nat, 4));
    lemma_byte_ranges();
    lemma_be_round_trip(c as nat, 4);
    assert(data.skip(9).take(4) =~= be_bytes(c as nat, 4));
}

/// The length before a message counts the bytes behind it, where it fits in four
/// bytes. (A keep-alive message is the exception: its length is zero, and one
/// byte follows.)
pub proof fn lemma_message_length(message: MessageValue)
    requires
        !(message is KeepAlive),
        !(message is Unknown),
        encoded(message).len() <= u32::MAX + 4,
    ensures
        encoded(message).len() >= 5,
        be_value(encoded(message).take(4)) == encoded(message).len() - 4,
{
    broadcast use lemma_be_bytes_len;

    lemma_byte_ranges();
    let length = (encoded(message).len() - 4) as nat;
    lemma_be_round_trip(length, 4);
    reveal_with_fuel(be_bytes, 5);
    assert(encoded(message).take(4) =~= be_bytes(length, 4));
}

/// Up to 2^24 pieces, a bitfield that was sent holds the pieces and at most seven
/// more.
pub proof fn lemma_padded(pieces: Seq<bool>)
    requires
        pieces.len() <= 0x100_0000,
    ensures
        pieces.len() <= padded(pieces).len() < pieces.len() + 8,
        padded(pieces).take(pieces.len() as int) == pieces,
        forall|i: int| pieces.len() <= i < padded(pieces).len() ==> !#[trigger] padded(pieces)[i],
{
    lemma_byte_count(pieces.len());
    assert(padded(pieces).take(pieces.len() as int) =~= pieces);
}

} // verus!
