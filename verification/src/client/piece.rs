//! A piece that is being put together from the blocks that a peer sends.
use vstd::prelude::*;

use crate::hashing::{MAX_HASHED_LEN, sha1_digest, sha1_of};
use crate::scan::same_bytes;

verus! {

/// The largest block that is asked for at once.
pub const BLOCK_LEN: usize = 16384;

/// What is known of a piece.
#[verifier::ext_equal]
pub struct PieceState {
    pub piece_len: usize,
    pub piece_data: Seq<u8>,
    pub piece_hash: Seq<u8>,
    pub start_file: usize,
    pub start_position: usize,
    pub finished: bool,
    pub requested: bool,
}

/// A piece of which nothing was received.
pub open spec fn new_piece(
    piece_len: usize,
    piece_hash: Seq<u8>,
    start_file: usize,
    start_position: usize,
    finished: bool,
) -> PieceState {
    PieceState {
        piece_len,
        piece_data: Seq::empty(),
        piece_hash,
        start_file,
        start_position,
        finished,
        requested: false,
    }
}

/// The piece once more bytes were received.
pub open spec fn with_bytes(piece: PieceState, bytes: Seq<u8>) -> PieceState {
    PieceState { piece_data: piece.piece_data + bytes, ..piece }
}

/// The piece once what was received is thrown away.
pub open spec fn emptied(piece: PieceState) -> PieceState {
    PieceState { piece_data: Seq::empty(), finished: false, requested: false, ..piece }
}

/// The next block to ask for: its offset, and its length, which is that of the
/// largest block or of what is missing.
pub open spec fn next_block(piece: PieceState) -> (u32, u32) {
    let received = piece.piece_data.len();
    let missing = piece.piece_len - received;
    (
        received as u32,
        if missing < BLOCK_LEN {
            missing as u32
        } else {
            BLOCK_LEN as u32
        },
    )
}

/// What was received has the digest of the piece.
pub open spec fn is_whole(piece: PieceState) -> bool {
    sha1_of(piece.piece_data) == piece.piece_hash
}

/// A piece.
pub struct Piece {
    piece_len: usize,
    piece_data: Vec<u8>,
    piece_hash: Vec<u8>,
    start_file: usize,
    start_position: usize,
    finished: bool,
    requested: bool,
}

impl View for Piece {
    type V = PieceState;

    closed spec fn view(&self) -> PieceState {
        PieceState {
            piece_len: self.piece_len,
            piece_data: self.piece_data@,
            piece_hash: self.piece_hash@,
            start_file: self.start_file,
            start_position: self.start_position,
            finished: self.finished,
            requested: self.requested,
        }
    }
}

impl Piece {
    /// A piece of which nothing was received.
    pub fn new(
        piece_len: usize,
        piece_hash: Vec<u8>,
        start_file: usize,
        start_position: usize,
        finished: bool,
    ) -> (piece: Piece)
        requires
            piece_len <= isize::MAX,
        ensures
            piece@ == new_piece(piece_len, piece_hash@, start_file, start_position, finished),
    {
        let piece = Piece {
            piece_len,
            piece_data: Vec::with_capacity(piece_len),
            piece_hash,
            start_file,
            start_position,
            finished,
            requested: false,
        };
        assert(piece@ =~= new_piece(piece_len, piece_hash@, start_file, start_position, finished));
        piece
    }

    /// The file in which the piece begins, and the place in it.
    pub fn get_offsets(&self) -> (offsets: (usize, usize))
        ensures
            offsets == (self@.start_file, self@.start_position),
    {
        (self.start_file, self.start_position)
    }

    /// The number of bytes in the piece.
    pub fn length(&self) -> (length: usize)
        ensures
            length == self@.piece_len,
    {
        self.piece_len
    }

    /// The offset and the length of the next block to ask for.
    pub fn get_block_request(&self) -> (block: (u32, u32))
        requires
            self@.piece_data.len() <= self@.piece_len,
        ensures
            block == next_block(self@),
    {
        let received: usize = self.piece_data.len();
        let missing: usize = self.piece_len - received;
        if missing < BLOCK_LEN {
            (received as u32, missing as u32)
        } else {
            (received as u32, BLOCK_LEN as u32)
        }
    }

    /// Whether what was received has the digest of the piece.
    pub fn check_piece(&self) -> (whole: bool)
        requires
            self@.piece_data.len() <= MAX_HASHED_LEN,
        ensures
            whole == is_whole(self@),
    {
        let digest = sha1_digest(self.piece_data.as_slice());
        same_bytes(digest.as_slice(), self.piece_hash.as_slice())
    }

    /// Throws away what was received.
    pub fn reset_piece(&mut self)
        requires
            old(self)@.piece_len <= isize::MAX,
        ensures
            final(self)@ == emptied(old(self)@),
    {
        self.finished = false;
        self.requested = false;
        self.piece_data = Vec::with_capacity(self.piece_len);
        assert(self@ =~= emptied(old(self)@));
    }

    /// Whether the piece is complete.
    pub fn finished(&self) -> (finished: bool)
        ensures
            finished == self@.finished,
    {
        self.finished
    }

    /// Notes whether the piece is complete.
    pub fn set_finished(&mut self, finished: bool)
        ensures
            final(self)@ == (PieceState { finished, ..old(self)@ }),
    {
        self.finished = finished;
    }

    /// Whether a peer was asked for the piece.
    pub fn requested(&self) -> (requested: bool)
        ensures
            requested == self@.requested,
    {
        self.requested
    }

    /// Notes whether a peer was asked for the piece.
    pub fn set_requested(&mut self, requested: bool)
        ensures
            final(self)@ == (PieceState { requested, ..old(self)@ }),
    {
        self.requested = requested;
    }

    /// Adds bytes that were received, and says whether they are enough for the
    /// piece.
    pub fn add_received_bytes(&mut self, buf: Vec<u8>) -> (enough: bool)
        ensures
            final(self)@ == with_bytes(old(self)@, buf@),
            enough == (final(self)@.piece_data.len() >= final(self)@.piece_len),
    {
        let ghost bytes = buf@;
        let mut buf = buf;
        self.piece_data.append(&mut buf);
        assert(self@ =~= with_bytes(old(self)@, bytes));
        self.piece_data.len() >= self.piece_len
    }

    /// What was received.
    pub fn piece_data(&self) -> (data: &[u8])
        ensures
            data@ == self@.piece_data,
    {
        self.piece_data.as_slice()
    }
}

/// A block that is asked for lies within the piece, is not empty while something
/// is missing, and when it has come the next one begins where it ends.
pub proof fn lemma_blocks_follow(piece: PieceState, block: Seq<u8>)
    requires
        piece.piece_data.len() < piece.piece_len <= u32::MAX,
        block.len() == next_block(piece).1,
    ensures
        0 < next_block(piece).1 <= BLOCK_LEN,
        next_block(piece).0 + next_block(piece).1 <= piece.piece_len,
        next_block(with_bytes(piece, block)).0 == next_block(piece).0 + next_block(piece).1,
{
}

/// A piece whose bytes are thrown away is one that is not complete and of which
/// nothing was received.
pub proof fn lemma_emptied_is_new(piece: PieceState)
    ensures
        emptied(piece) == new_piece(
            piece.piece_len,
            piece.piece_hash,
            piece.start_file,
            piece.start_position,
            false,
        ),
{
}

} // verus!
