//! What is read from a connection before it becomes a message.
use vstd::prelude::*;

use crate::client::peer::message::Message;
use crate::engine::peer::message::{MessageValue, decoded};
use crate::wire::{be_value, slice_get_u32};

verus! {

/// The number of bytes in a handshake.
pub const HANDSHAKE_LEN: usize = 68;

/// The length of the message that follows, where the four bytes of the length
/// came whole.
pub fn message_length(buf: &Vec<u8>, bytes: usize) -> (length: Option<usize>)
    requires
        buf@.len() >= 4,
    ensures
        match length {
            Some(n) => bytes == 4 && n == be_value(buf@.take(4)),
            None => bytes != 4,
        },
{
    if bytes == 4 {
        Some(slice_get_u32(buf.as_slice()) as usize)
    } else {
        None
    }
}

/// The message in the bytes that were read, where all of them came and their kind
/// is known.
pub fn read_message(buf: Vec<u8>, bytes: usize) -> (message: Option<Message>)
    requires
        decoded(buf@) is Some,
    ensures
        match message {
            Some(m) => bytes == buf@.len() && decoded(buf@) == Some(m@),
            None => bytes != buf@.len() || decoded(buf@) matches Some(MessageValue::Unknown(_)),
        },
{
    if bytes == buf.len() {
        Message::from_bytes(buf)
    } else {
        None
    }
}

/// Whether the peer's answer to the handshake came whole.
pub fn handshake_complete(bytes: usize) -> (complete: bool)
    ensures
        complete == (bytes == HANDSHAKE_LEN),
{
    bytes == HANDSHAKE_LEN
}

} // verus!
