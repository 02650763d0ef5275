//! The messages that peers send each other, with their contents told apart.
use vstd::prelude::*;
use vstd::slice::slice_subrange;

use crate::client::peer::Bitfield;
use crate::engine::peer::message::{MessageValue, decoded, encoded, label, word_at};
use crate::scan::{copy_bytes, copy_range};
use crate::wire::{be_bytes, lemma_be_bytes_len, push_be, slice_get_u32};

verus! {

/// A message to or from a peer.
pub enum Message {
    KeepAlive,
    Choke,
    Unchoke,
    Interested,
    NotInterested,
    Have { piece: u32 },
    Bitfield { bitfield: Bitfield },
    Request { piece_idx: u32, block_offset: u32, block_length: u32 },
    Piece { piece_idx: u32, block_offset: u32, block_data: Vec<u8> },
    Cancel { piece_idx: u32, block_offset: u32, block_length: u32 },
}

impl View for Message {
    type V = MessageValue;

    open spec fn view(&self) -> MessageValue {
        match *self {
            Message::KeepAlive => MessageValue::KeepAlive,
            Message::Choke => MessageValue::Choke,
            Message::Unchoke => MessageValue::Unchoke,
            Message::Interested => MessageValue::Interested,
            Message::NotInterested => MessageValue::NotInterested,
            Message::Have { piece } => MessageValue::Have { piece },
            Message::Bitfield { bitfield } => MessageValue::Bitfield { pieces: bitfield@ },
            Message::Request { piece_idx, block_offset, block_length } => MessageValue::Request {
                piece_idx,
                block_offset,
                block_length,
            },
            Message::Piece { piece_idx, block_offset, block_data } => MessageValue::Piece {
                piece_idx,
                block_offset,
                block_data: block_data@,
            },
            Message::Cancel { piece_idx, block_offset, block_length } => MessageValue::Cancel {
                piece_idx,
                block_offset,
                block_length,
            },
        }
    }
}

impl Clone for Message {
    fn clone(&self) -> (copy: Message)
        ensures
            copy@ == self@,
    {
        match self {
            Message::KeepAlive => Message::KeepAlive,
            Message::Choke => Message::Choke,
            Message::Unchoke => Message::Unchoke,
            Message::Interested => Message::Interested,
            Message::NotInterested => Message::NotInterested,
            Message::Have { piece } => Message::Have { piece: *piece },
            Message::Bitfield { bitfield } => Message::Bitfield { bitfield: bitfield.clone() },
            Message::Request { piece_idx, block_offset, block_length } => Message::Request {
                piece_idx: *piece_idx,
                block_offset: *block_offset,
                block_length: *block_length,
            },
            Message::Piece { piece_idx, block_offset, block_data } => Message::Piece {
                piece_idx: *piece_idx,
                block_offset: *block_offset,
                block_data: copy_bytes(block_data.as_slice()),
            },
            Message::Cancel { piece_idx, block_offset, block_length } => Message::Cancel {
                piece_idx: *piece_idx,
                block_offset: *block_offset,
                block_length: *block_length,
            },
        }
    }
}

/// The message's length fits in the four bytes before it.
pub open spec fn length_fits(message: MessageValue) -> bool {
    match message {
        MessageValue::Bitfield { pieces } => (encoded(message).len() - 5) as u32 <= u32::MAX - 1,
        MessageValue::Piece { block_data, .. } => block_data.len() as u32 <= u32::MAX - 9,
        _ => true,
    }
}

/// The number in the four bytes from `at` on.
pub(crate) fn read_word(data: &[u8], at: usize) -> (word: u32)
    requires
        at + 4 <= data@.len(),
    ensures
        word == word_at(data@, at as int),
{
    let len: usize = data.len();
    assert(at + 4 <= len);
    let part = slice_subrange(data, at, at + 4);
    assert(part@.take(4) =~= data@.skip(at as int).take(4));
    slice_get_u32(part)
}

impl Message {
    /// Whether the bytes are enough for their kind of message.
    pub fn can_read(data: &Vec<u8>) -> (can: bool)
        ensures
            can == (decoded(data@) is Some),
    {
        if data.len() == 0 {
            return true;
        }
        let kind: u8 = data[0];
        if kind == 4 {
            data.len() >= 5
        } else if kind == 6 || kind == 8 {
            data.len() >= 13
        } else if kind == 7 {
            data.len() >= 9
        } else {
            true
        }
    }

    /// Reads the bytes behind the length of a message, or nothing where their kind
    /// is unknown.
    pub fn from_bytes(data: Vec<u8>) -> (message: Option<Message>)
        requires
            decoded(data@) is Some,
        ensures
            match message {
                Some(m) => decoded(data@) == Some(m@),
                None => decoded(data@) matches Some(MessageValue::Unknown(_)),
            },
    {
        if data.len() == 0 {
            return Some(Message::KeepAlive);
        }
        let id: u8 = data[0];
        let slice = data.as_slice();
        if id == 0 {
            Some(Message::Choke)
        } else if id == 1 {
            Some(Message::Unchoke)
        } else if id == 2 {
            Some(Message::Interested)
        } else if id == 3 {
            Some(Message::NotInterested)
        } else if id == 4 {
            Some(Message::Have { piece: read_word(slice, 1) })
        } else if id == 5 {
            let body = copy_range(slice, 1, data.len());
            assert(body@ =~= data@.skip(1));
            Some(Message::Bitfield { bitfield: Bitfield::from_peer_data(body) })
        } else if id == 6 {
            Some(
                Message::Request {
                    piece_idx: read_word(slice, 1),
                    block_offset: read_word(slice, 5),
                    block_length: read_word(slice, 9),
                },
            )
        } else if id == 7 {
            let block_data = copy_range(slice, 9, data.len());
            assert(block_data@ =~= data@.skip(9));
            Some(
                Message::Piece {
                    piece_idx: read_word(slice, 1),
                    block_offset: read_word(slice, 5),
                    block_data,
                },
            )
        } else if id == 8 {
            Some(
                Message::Cancel {
                    piece_idx: read_word(slice, 1),
                    block_offset: read_word(slice, 5),
                    block_length: read_word(slice, 9),
                },
            )
        } else {
            None
        }
    }

    /// Whether the message's length fits in the four bytes before it.
    pub fn can_send(&self) -> (can: bool)
        ensures
            can == length_fits(self@),
    {
        broadcast use lemma_be_bytes_len;

        match self {
            Message::Bitfield { bitfield } => {
                let size: usize = bitfield.as_bytes().len();
                assert(encoded(self@).len() - 5 == size);
                size as u32 <= u32::MAX - 1
            },
            Message::Piece { block_data, .. } => block_data.len() as u32 <= u32::MAX - 9,
            _ => true,
        }
    }

    /// The bytes of the message.
    pub fn to_bytes(&self) -> (data: Vec<u8>)
        requires
            length_fits(self@),
        ensures
            data@ == encoded(self@),
    {
        broadcast use lemma_be_bytes_len;

        match self {
            Message::KeepAlive => vec![0, 0, 0, 0, 0],
            Message::Choke => vec![0, 0, 0, 1, 0],
            Message::Unchoke => vec![0, 0, 0, 1, 1],
            Message::Interested => vec![0, 0, 0, 1, 2],
            Message::NotInterested => vec![0, 0, 0, 1, 3],
            Message::Have { piece } => {
                let mut message: Vec<u8> = Vec::new();
                push_be(&mut message, 5, 4);
                message.push(4);
                push_be(&mut message, *piece as u64, 4);
                assert(message@ =~= encoded(self@));
                message
            },
            Message::Bitfield { bitfield } => {
                let mut bitfield = bitfield.as_bytes();
                let ghost packed = bitfield@;
                let size: usize = bitfield.len();
                assert((encoded(self@).len() - 5) == size);
                assert(((size as u32) + 1) as u32 == (size + 1) as u32) by (bit_vector)
                    requires
                        (size as u32) <= 0xffff_fffeu32,
                ;
                let length: u32 = size as u32 + 1;
                let mut message: Vec<u8> = Vec::new();
                push_be(&mut message, length as u64, 4);
                message.push(5);
                message.append(&mut bitfield);
                assert(message@ =~= encoded(self@));
                message
            },
            Message::Request { piece_idx, block_offset, block_length } => {
                let message = words_message(6, *piece_idx, *block_offset, *block_length);
                assert(message@ =~= encoded(self@));
                message
            },
            Message::Piece { piece_idx, block_offset, block_data } => {
                let size: usize = block_data.len();
                assert(((size as u32) + 9) as u32 == (9 + size) as u32) by (bit_vector)
                    requires
                        (size as u32) <= 0xffff_fff6u32,
                ;
                let length: u32 = 9 + size as u32;
                let mut message: Vec<u8> = Vec::new();
                push_be(&mut message, length as u64, 4);
                message.push(7);
                push_be(&mut message, *piece_idx as u64, 4);
                push_be(&mut message, *block_offset as u64, 4);
                let mut block = copy_bytes(block_data.as_slice());
                message.append(&mut block);
                assert(message@ =~= encoded(self@));
                message
            },
            Message::Cancel { piece_idx, block_offset, block_length } => {
                let message = words_message(8, *piece_idx, *block_offset, *block_length);
                assert(message@ =~= encoded(self@));
                message
            },
        }
    }

    /// What the message is called.
    pub fn to_text(&self) -> (text: String)
        ensures
            text@ == label(self@),
    {
        match self {
            Message::KeepAlive => "Keep Alive".to_owned(),
            Message::Choke => "Choke".to_owned(),
            Message::Unchoke => "Unchoke".to_owned(),
            Message::Interested => "Interested".to_owned(),
            Message::NotInterested => "Not Interested".to_owned(),
            Message::Have { .. } => "Have".to_owned(),
            Message::Bitfield { .. } => "Bitfield".to_owned(),
            Message::Request { .. } => "Request".to_owned(),
            Message::Piece { .. } => "Piece".to_owned(),
            Message::Cancel { .. } => "Cancel".to_owned(),
        }
    }
}

/// The bytes of a message that holds three numbers.
fn words_message(kind: u8, a: u32, b: u32, c: u32) -> (message: Vec<u8>)
    ensures
        message@ == be_bytes(13, 4).push(kind) + be_bytes(a as nat, 4) + be_bytes(b as nat, 4)
            + be_bytes(c as nat, 4),
{
    let mut message: Vec<u8> = Vec::new();
    push_be(&mut message, 13, 4);
    message.push(kind);
    assert(message@ =~= be_bytes(13, 4).push(kind));
    push_be(&mut message, a as u64, 4);
    push_be(&mut message, b as u64, 4);
    push_be(&mut message, c as u64, 4);
    message
}

} // verus!
