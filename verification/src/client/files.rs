//! Where pieces lie in the files of a torrent.
use vstd::prelude::*;

verus! {

/// How many bytes are read from a file for a piece: as many as a piece has, or
/// what is left of the file. Nothing where the piece begins behind the end of the
/// file, or its end cannot be counted.
pub open spec fn read_length_of(filesize: u64, offset: u64, piece_length: u64) -> Option<usize> {
    if offset + piece_length > u64::MAX {
        None
    } else if offset + piece_length > filesize {
        if offset > filesize {
            None
        } else {
            Some((filesize - offset) as usize)
        }
    } else {
        Some(piece_length as usize)
    }
}

/// How many bytes are read from a file for a piece.
pub fn read_length(filesize: u64, offset: u64, piece_length: u64) -> (length: Option<usize>)
    ensures
        length == read_length_of(filesize, offset, piece_length),
{
    if piece_length > u64::MAX - offset {
        None
    } else if offset + piece_length > filesize {
        if offset > filesize {
            None
        } else {
            Some((filesize - offset) as usize)
        }
    } else {
        Some(piece_length as usize)
    }
}

/// Whether a piece goes on in the next file: what was read is too short, and the
/// file is not the last one.
pub fn goes_on(start_file: usize, file_count: usize, read: usize, piece_length: usize) -> (more:
    bool)
    requires
        file_count > 0,
    ensures
        more == (start_file != file_count - 1 && read < piece_length),
{
    start_file != file_count - 1 && read < piece_length
}

/// A piece out of two files: what was read from the first one, and from the second
/// one as much as the piece is short of, with zeros behind where that is too
/// little.
pub open spec fn joined(first: Seq<u8>, second: Seq<u8>, piece_length: int) -> Seq<u8> {
    Seq::new(
        piece_length as nat,
        |i: int|
            if i < first.len() {
                first[i]
            } else if i - first.len() < second.len() {
                second[i - first.len()]
            } else {
                0
            },
    )
}

/// A piece out of two files.
pub fn join_files(first: Vec<u8>, second: Vec<u8>, piece_length: usize) -> (piece: Vec<u8>)
    requires
        first@.len() < piece_length,
        piece_length <= isize::MAX,
    ensures
        piece@ == joined(first@, second@, piece_length as int),
{
    let ghost start = first@;
    let ghost next = second@;
    let remaining: usize = piece_length - first.len();
    let mut data = second;
    data.resize(remaining, 0);
    let mut piece = first;
    piece.append(&mut data);
    assert(piece@ =~= joined(start, next, piece_length as int));
    piece
}

/// Where the next byte of a piece goes, when the file has so many bytes: to the
/// same file, or to the beginning of the next one. The position is the one behind
/// the byte.
pub open spec fn byte_place(filesize: u64, file: usize, position: usize) -> (int, int) {
    if position >= filesize {
        (file + 1, 1)
    } else {
        (file as int, position + 1)
    }
}

/// Moves on to where the next byte of a piece goes.
pub fn next_byte(filesize: u64, file_idx: &mut usize, file_position: &mut usize)
    requires
        *old(file_idx) < usize::MAX,
        *old(file_position) < usize::MAX,
    ensures
        (*final(file_idx) as int, *final(file_position) as int) == byte_place(
            filesize,
            *old(file_idx),
            *old(file_position),
        ),
{
    if *file_position as u64 >= filesize {
        *file_idx = *file_idx + 1;
        *file_position = 0;
    }
    *file_position = *file_position + 1;
}

/// Where the next piece begins, when a piece of a length begins at an offset of a
/// file with so many bytes: in the same file, or in the next one behind what the
/// piece took of it.
pub open spec fn next_start(file: int, offset: int, length: int, filesize: int) -> (int, int) {
    let end = offset + length;
    if end > filesize {
        (file + 1, end - filesize)
    } else if end == filesize {
        (file + 1, 0)
    } else {
        (file, end)
    }
}

/// A walk through the pieces of a torrent.
#[derive(Clone, Copy, Debug, PartialEq, Eq, Structural)]
pub struct PieceWalk {
    pub file: usize,
    pub piece: usize,
    pub offset: usize,
}

impl PieceWalk {
    /// A walk at its beginning.
    pub fn new() -> (walk: PieceWalk)
        ensures
            walk == (PieceWalk { file: 0, piece: 0, offset: 0 }),
    {
        PieceWalk { file: 0, piece: 0, offset: 0 }
    }

    /// Whether the walk can go on.
    pub open spec fn can_go_on(self, length: int) -> bool {
        &&& self.file < usize::MAX
        &&& self.piece < usize::MAX
        &&& self.offset + length <= usize::MAX
    }

    /// Goes on to the next piece.
    pub fn go_on(&mut self, length: usize, filesize: usize)
        requires
            old(self).can_go_on(length as int),
        ensures
            final(self).piece == old(self).piece + 1,
            (final(self).file as int, final(self).offset as int) == next_start(
                old(self).file as int,
                old(self).offset as int,
                length as int,
                filesize as int,
            ),
    {
        let end: usize = self.offset + length;
        if end > filesize {
            self.file = self.file + 1;
            self.offset = end - filesize;
        } else if end == filesize {
            self.file = self.file + 1;
            self.offset = 0;
        } else {
            self.offset = end;
        }
        self.piece = self.piece + 1;
    }
}

/// Counted from the beginning of the file in which a piece begins, the next piece
/// begins where the piece ends.
pub proof fn lemma_pieces_follow(file: int, offset: int, length: int, filesize: int)
    requires
        0 <= offset,
        0 <= length,
        0 <= filesize,
    ensures
        ({
            let (next, start) = next_start(file, offset, length, filesize);
            (next - file) * filesize + start == offset + length
        }),
        next_start(file, offset, length, filesize).0 == file || next_start(
            file,
            offset,
            length,
            filesize,
        ).0 == file + 1,
{
    let (next, start) = next_start(file, offset, length, filesize);
    if next == file + 1 {
        assert((next - file) * filesize == filesize) by (nonlinear_arith)
            requires
                next == file + 1,
        ;
    } else {
        assert((next - file) * filesize == 0) by (nonlinear_arith)
            requires
                next == file,
        ;
    }
}

/// What is read of the files for a piece is all of what the two parts hold.
pub proof fn lemma_joined(first: Seq<u8>, second: Seq<u8>, piece_length: int)
    requires
        first.len() <= piece_length,
        second.len() == piece_length - first.len(),
    ensures
        joined(first, second, piece_length) == first + second,
{
    assert(joined(first, second, piece_length) =~= first + second);
}

} // verus!
