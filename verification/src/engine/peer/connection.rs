//! What is read from a connection before it becomes a message.
use vstd::prelude::*;

use crate::wire::{be_value, slice_get_u32};

verus! {

/// The number of bytes in a handshake.
pub const HANDSHAKE_LEN: usize = 68;

/// The length of the message that follows, where the four bytes of the length
/// came whole.
pub fn frame_length(len_buf: &Vec<u8>, read_len_bytes: usize) -> (length: Option<usize>)
    requires
        len_buf@.len() >= 4,
    ensures
        match length {
            Some(n) => read_len_bytes == 4 && n == be_value(len_buf@.take(4)),
            None => read_len_bytes != 4,
        },
{
    if read_len_bytes == 4 {
        Some(slice_get_u32(len_buf.as_slice()) as usize)
    } else {
        None
    }
}

/// Whether the peer's answer to the handshake came whole.
pub fn handshake_complete(received_bytes: usize) -> (complete: bool)
    ensures
        complete == (received_bytes == HANDSHAKE_LEN),
{
    received_bytes == HANDSHAKE_LEN
}

} // verus!
