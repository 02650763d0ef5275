//! The state of a connection to a peer, and what is done for each message and
//! each command.
use vstd::prelude::*;

use crate::bits::{byte_count, pack, packed, unpack, unpacked};

pub mod connection;
pub mod message;
pub mod state;
pub mod tcp;

verus! {

/// Which pieces somebody has.
pub struct Bitfield {
    pieces: Vec<bool>,
}

impl View for Bitfield {
    type V = Seq<bool>;

    closed spec fn view(&self) -> Seq<bool> {
        self.pieces@
    }
}

impl Clone for Bitfield {
    fn clone(&self) -> (copy: Bitfield)
        ensures
            copy@ == self@,
    {
        Bitfield { pieces: copy_flags(&self.pieces) }
    }
}

/// A copy of flags.
pub fn copy_flags(flags: &Vec<bool>) -> (copy: Vec<bool>)
    ensures
        copy@ == flags@,
{
    let mut copy: Vec<bool> = Vec::with_capacity(flags.len());
    let mut i: usize = 0;
    while i < flags.len()
        invariant
            i <= flags@.len(),
            copy@ == flags@.take(i as int),
        decreases flags@.len() - i,
    {
        copy.push(flags[i]);
        i = i + 1;
        assert(copy@ =~= flags@.take(i as int));
    }
    assert(copy@ =~= flags@);
    copy
}

impl Bitfield {
    /// No piece out of so many.
    pub fn empty(pieces: usize) -> (bitfield: Bitfield)
        requires
            pieces <= isize::MAX,
        ensures
            bitfield@ == Seq::new(pieces as nat, |i: int| false),
    {
        let bitfield = Bitfield { pieces: vec![false; pieces] };
        assert(bitfield@ =~= Seq::new(pieces as nat, |i: int| false));
        bitfield
    }

    /// The pieces that are marked.
    pub fn from_pieces(pieces: Vec<bool>) -> (bitfield: Bitfield)
        ensures
            bitfield@ == pieces@,
    {
        Bitfield { pieces }
    }

    /// The pieces that a peer says it has, eight to a byte.
    pub fn from_peer_data(data: &[u8]) -> (bitfield: Bitfield)
        ensures
            bitfield@ == unpacked(data@),
    {
        Bitfield { pieces: unpack(data) }
    }

    /// The pieces, eight to a byte.
    pub fn as_bytes(&self) -> (data: Vec<u8>)
        ensures
            data@ == packed(self@, byte_count(self@.len())),
    {
        pack(&self.pieces)
    }

    /// The number of pieces.
    pub fn len(&self) -> (pieces: usize)
        ensures
            pieces == self@.len(),
    {
        self.pieces.len()
    }

    /// Whether the piece is there.
    pub fn is_piece_available(&self, piece: usize) -> (available: bool)
        requires
            piece < self@.len(),
        ensures
            available == self@[piece as int],
    {
        self.pieces[piece]
    }

    /// Marks the piece as there.
    pub fn piece_finished(&mut self, piece: u32)
        requires
            piece < old(self)@.len(),
        ensures
            final(self)@ == old(self)@.update(piece as int, true),
    {
        self.pieces.set(piece as usize, true);
    }

    /// The flag of each piece.
    pub fn into_pieces(self) -> (pieces: Vec<bool>)
        ensures
            pieces@ == self@,
    {
        self.pieces
    }
}

} // verus!
