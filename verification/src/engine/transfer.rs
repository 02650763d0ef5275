//! The pieces of a torrent: where they lie in its files, which of them are
//! complete, and which peer is to bring them.
use vstd::prelude::*;

use crate::address::PeerAddress;
use crate::bencode::{ParsedTorrent, TorrentValue, named_sizes};
use crate::engine::peer::state::with_block;
use crate::hashing::{MAX_HASHED_LEN, sha1_digest, sha1_of};
use crate::scan::{contents, copy_range, same_bytes};
use crate::text::{ascending, sorted_unique, texts};

verus! {

/// A piece of a torrent.
#[derive(Clone, Copy, Debug)]
pub struct TransferPiece {
    pub idx: usize,
    pub length: usize,
    pub completed: bool,
    pub start_file: usize,
    pub start_position: usize,
    pub assigned_to: Option<PeerAddress>,
}

impl TransferPiece {
    /// The number of the piece.
    pub fn idx(&self) -> (idx: usize)
        ensures
            idx == self.idx,
    {
        self.idx
    }

    /// The number of bytes in the piece.
    pub fn length(&self) -> (length: usize)
        ensures
            length == self.length,
    {
        self.length
    }

    /// Lets a peer bring the piece.
    pub fn set_assigned(&mut self, address: PeerAddress)
        ensures
            *final(self) == (TransferPiece { assigned_to: Some(address), ..*old(self) }),
    {
        self.assigned_to = Some(address);
    }
}

/// How far a torrent has come.
#[derive(Debug, Clone, Copy)]
pub struct TransferProgress {
    pub left: u64,
    pub total: u64,
    pub uploaded: u64,
    pub downloaded: u64,
}

/// The file in which a piece begins, and the place in that file: each piece
/// begins where the one before it ends, in the same file or in the next one.
pub open spec fn piece_start(sizes: Seq<u64>, piece_length: u64, piece: nat) -> (int, int)
    decreases piece,
{
    if piece == 0 {
        (0, 0)
    } else {
        let (file, position) = piece_start(sizes, piece_length, (piece - 1) as nat);
        let end = position + piece_length as usize;
        if end >= sizes[file] as usize {
            (file + 1, end - sizes[file] as usize)
        } else {
            (file, end)
        }
    }
}

/// The files are enough for so many pieces.
pub open spec fn layout_ok(sizes: Seq<u64>, piece_length: u64, count: nat) -> bool {
    &&& sizes.len() > 0
    &&& forall|i: nat|
        i < count ==> {
            let (file, position) = #[trigger] piece_start(sizes, piece_length, i);
            file < sizes.len() && position + piece_length as usize <= usize::MAX
        }
}

/// A piece as it is before anything was read.
pub open spec fn fresh_piece(sizes: Seq<u64>, piece_length: u64, piece: int) -> TransferPiece {
    let (file, position) = piece_start(sizes, piece_length, piece as nat);
    TransferPiece {
        idx: piece as usize,
        length: piece_length as usize,
        completed: false,
        start_file: file as usize,
        start_position: position as usize,
        assigned_to: None,
    }
}

/// The bytes in the first files.
pub open spec fn bytes_before(sizes: Seq<u64>, files: int) -> int
    decreases files,
{
    if files <= 0 {
        0
    } else {
        bytes_before(sizes, files - 1) + sizes[files - 1]
    }
}

/// Where a piece begins, counted through all files, is the length of the pieces
/// before it.
pub proof fn lemma_piece_start(sizes: Seq<u64>, piece_length: u64, piece: nat)
    requires
        layout_ok(sizes, piece_length, piece),
        forall|i: int| 0 <= i < sizes.len() ==> #[trigger] sizes[i] <= usize::MAX,
        piece_length <= usize::MAX,
    ensures
        ({
            let (file, position) = piece_start(sizes, piece_length, piece);
            &&& 0 <= file <= piece
            &&& 0 <= position
            &&& bytes_before(sizes, file) + position == piece * piece_length
        }),
    decreases piece,
{
    if piece > 0 {
        let before = (piece - 1) as nat;
        lemma_piece_start(sizes, piece_length, before);
        let (file, position) = piece_start(sizes, piece_length, before);
        assert(sizes[file] <= usize::MAX);
        assert(piece * piece_length == before * piece_length + piece_length) by (nonlinear_arith)
            requires
                piece == before + 1,
        ;
    }
}

/// A stretch of bytes in one of the files.
#[derive(Clone, Copy, Debug, PartialEq, Eq, Structural)]
pub struct Span {
    pub file: usize,
    pub position: u64,
    pub length: usize,
}

/// Where a piece is read from: the file in which it begins and, where that ends
/// too early and the piece is not the last one, the beginning of the next file.
pub open spec fn read_spans(
    sizes: Seq<u64>,
    piece_length: u64,
    piece: TransferPiece,
    last: bool,
) -> Seq<Span> {
    let whole = piece_length as usize;
    let remaining = sizes[piece.start_file as int] as usize - piece.start_position;
    let first = if remaining >= whole {
        whole as int
    } else {
        remaining
    };
    let start = Span {
        file: piece.start_file,
        position: piece.start_position as u64,
        length: first as usize,
    };
    if first != whole && !last {
        seq![
            start,
            Span {
                file: (piece.start_file + 1) as usize,
                position: 0,
                length: (whole - first) as usize,
            },
        ]
    } else {
        seq![start]
    }
}

/// A piece can be read: it begins within its file, and where it goes on in the
/// next file there is one.
pub open spec fn readable(
    sizes: Seq<u64>,
    piece_length: u64,
    piece: TransferPiece,
    last: bool,
) -> bool {
    &&& piece.start_file < sizes.len()
    &&& piece.start_position <= sizes[piece.start_file as int] as usize
    &&& !last && sizes[piece.start_file as int] as usize - piece.start_position
        < piece_length as usize ==> piece.start_file + 1 < sizes.len()
}

/// Where the data of a piece is written to: the file in which it begins and,
/// where the data reaches beyond that file, the beginning of the next one.
pub open spec fn write_spans(sizes: Seq<u64>, piece: TransferPiece, length: int) -> Seq<Span> {
    let size = sizes[piece.start_file as int] as usize;
    if piece.start_position + length > size {
        let first = size - piece.start_position;
        seq![
            Span {
                file: piece.start_file,
                position: piece.start_position as u64,
                length: first as usize,
            },
            Span {
                file: (piece.start_file + 1) as usize,
                position: 0,
                length: (length - first) as usize,
            },
        ]
    } else {
        seq![
            Span {
                file: piece.start_file,
                position: piece.start_position as u64,
                length: length as usize,
            },
        ]
    }
}

/// Data can be written to a piece: it begins within its file, and where it goes
/// on in the next file there is one.
pub open spec fn writable(sizes: Seq<u64>, piece: TransferPiece, length: int) -> bool {
    &&& piece.start_file < sizes.len()
    &&& piece.start_position + length <= usize::MAX
    &&& piece.start_position + length > sizes[piece.start_file as int] as usize ==> {
        &&& piece.start_position <= sizes[piece.start_file as int] as usize
        &&& piece.start_file + 1 < sizes.len()
    }
}

/// The number of bytes in all the stretches.
pub open spec fn spans_length(spans: Seq<Span>) -> int
    decreases spans.len(),
{
    if spans.len() == 0 {
        0
    } else {
        spans_length(spans.drop_last()) + spans.last().length
    }
}

/// The files after data was written to the stretches, one after the other.
pub open spec fn files_written(files: Seq<Seq<u8>>, spans: Seq<Span>, data: Seq<u8>) -> Seq<Seq<u8>>
    decreases spans.len(),
{
    if spans.len() == 0 {
        files
    } else {
        let before = files_written(files, spans.drop_last(), data);
        let span = spans.last();
        let from = spans_length(spans.drop_last());
        before.update(
            span.file as int,
            with_block(
                before[span.file as int],
                span.position as int,
                data.subrange(from, from + span.length),
            ),
        )
    }
}

/// The bytes in the stretches, one after the other.
pub open spec fn files_read(files: Seq<Seq<u8>>, spans: Seq<Span>) -> Seq<u8>
    decreases spans.len(),
{
    if spans.len() == 0 {
        Seq::empty()
    } else {
        let span = spans.last();
        files_read(files, spans.drop_last()) + files[span.file as int].subrange(
            span.position as int,
            span.position + span.length,
        )
    }
}

/// What is written to a piece lies just where the piece is read from, when there
/// is as much of it as is read.
pub proof fn lemma_read_where_written(
    sizes: Seq<u64>,
    piece_length: u64,
    piece: TransferPiece,
    last: bool,
)
    requires
        readable(sizes, piece_length, piece, last),
    ensures
        ({
            let spans = read_spans(sizes, piece_length, piece, last);
            write_spans(sizes, piece, spans_length(spans)) == spans
        }),
{
    let spans = read_spans(sizes, piece_length, piece, last);
    reveal_with_fuel(spans_length, 3);
    if spans.len() == 2 {
        assert(spans.drop_last().drop_last() =~= Seq::empty());
    } else {
        assert(spans.drop_last() =~= Seq::empty());
    }
    assert(write_spans(sizes, piece, spans_length(spans)) =~= spans);
}

/// A piece that was written to the files is the piece that is read from them.
pub proof fn lemma_write_then_read(
    files: Seq<Seq<u8>>,
    sizes: Seq<u64>,
    piece_length: u64,
    piece: TransferPiece,
    last: bool,
    data: Seq<u8>,
)
    requires
        files.len() == sizes.len() <= usize::MAX,
        readable(sizes, piece_length, piece, last),
        data.len() == spans_length(read_spans(sizes, piece_length, piece, last)),
        forall|i: int|
            0 <= i < read_spans(sizes, piece_length, piece, last).len() ==> {
                let span = #[trigger] read_spans(sizes, piece_length, piece, last)[i];
                span.position + span.length <= files[span.file as int].len()
            },
    ensures
        files_read(
            files_written(files, write_spans(sizes, piece, data.len() as int), data),
            read_spans(sizes, piece_length, piece, last),
        ) == data,
{
    lemma_read_where_written(sizes, piece_length, piece, last);
    let spans = read_spans(sizes, piece_length, piece, last);
    let after = files_written(files, spans, data);
    reveal_with_fuel(spans_length, 3);
    reveal_with_fuel(files_written, 3);
    reveal_with_fuel(files_read, 3);
    let first = spans[0];
    if spans.len() == 2 {
        assert(spans.drop_last().drop_last() =~= Seq::empty());
        assert(spans.drop_last().last() == first);
        let second = spans[1];
        assert(second.file == first.file + 1);
        assert(spans.drop_last().drop_last().len() == 0);
        assert(first.position + first.length <= files[first.file as int].len());
        assert(second.position + second.length <= files[second.file as int].len());
        assert(after[first.file as int].subrange(
            first.position as int,
            first.position + first.length,
        ) =~= data.subrange(0, first.length as int));
        assert(after[second.file as int].subrange(
            second.position as int,
            second.position + second.length,
        ) =~= data.subrange(first.length as int, data.len() as int));
        assert(files_read(after, spans) =~= data);
    } else {
        assert(spans.drop_last() =~= Seq::empty());
        assert(spans.last() == first);
        assert(spans_length(spans.drop_last()) == 0);
        assert(files_written(files, spans.drop_last(), data) == files);
        assert(first.position + first.length <= files[first.file as int].len());
        assert(after[first.file as int] == with_block(
            files[first.file as int],
            first.position as int,
            data.subrange(0, first.length as int),
        ));
        assert(after[first.file as int].subrange(
            first.position as int,
            first.position + first.length,
        ) =~= data.subrange(0, first.length as int));
        assert(files_read(after, spans) =~= data);
    }
}

/// The state of a torrent.
#[verifier::ext_equal]
pub struct TransferState {
    pub torrent: TorrentValue,
    pub pieces: Seq<TransferPiece>,
    pub piece_length: u64,
    pub sizes: Seq<u64>,
    pub left: u64,
    pub total_size: u64,
    pub total_uploaded: u64,
    pub total_downloaded: u64,
}

/// The lengths of files.
pub open spec fn sizes_of(files: Seq<(Seq<char>, u64)>) -> Seq<u64> {
    files.map_values(|file: (Seq<char>, u64)| file.1)
}

/// The torrent can be laid out: its files are enough for its pieces, and their
/// lengths can be added up.
pub open spec fn torrent_ok(torrent: TorrentValue) -> bool {
    let sizes = sizes_of(torrent.info.files);
    &&& layout_ok(sizes, torrent.info.piece_length, torrent.info.pieces.len())
    &&& bytes_before(sizes, sizes.len() as int) <= u64::MAX
}

/// A torrent of which nothing has been read.
pub open spec fn fresh_transfer(torrent: TorrentValue) -> TransferState {
    let sizes = sizes_of(torrent.info.files);
    let total = bytes_before(sizes, sizes.len() as int) as u64;
    TransferState {
        torrent,
        pieces: Seq::new(
            torrent.info.pieces.len(),
            |i: int| fresh_piece(sizes, torrent.info.piece_length, i),
        ),
        piece_length: torrent.info.piece_length,
        sizes,
        left: total,
        total_size: total,
        total_uploaded: 0,
        total_downloaded: 0,
    }
}

/// What holds of every torrent: there is a digest for each piece, each piece has
/// its number, and no more is left than there is.
pub open spec fn transfer_ok(state: TransferState) -> bool {
    &&& state.pieces.len() == state.torrent.info.pieces.len()
    &&& forall|i: int| 0 <= i < state.pieces.len() ==> (#[trigger] state.pieces[i]).idx == i
    &&& state.left <= state.total_size
}

/// The data has the digest of the piece.
pub open spec fn digest_matches(state: TransferState, piece: int, data: Seq<u8>) -> bool {
    sha1_of(data) == state.torrent.info.pieces[piece]
}

/// The state once a piece is found to be there or not: a piece that is there is
/// no longer left.
pub open spec fn piece_checked(state: TransferState, piece: int, data: Seq<u8>) -> TransferState {
    let there = digest_matches(state, piece, data);
    TransferState {
        pieces: state.pieces.update(
            piece,
            TransferPiece { length: data.len() as usize, completed: there, ..state.pieces[piece] },
        ),
        left: if there {
            (state.left - data.len()) as u64
        } else {
            state.left
        },
        ..state
    }
}

/// The state once the data of a piece came from a peer: a piece that is complete
/// is no longer left.
pub open spec fn piece_added(state: TransferState, piece: int, data: Seq<u8>) -> TransferState {
    if digest_matches(state, piece, data) {
        TransferState {
            pieces: state.pieces.update(
                piece,
                TransferPiece { completed: true, ..state.pieces[piece] },
            ),
            left: (state.left - data.len()) as u64,
            ..state
        }
    } else {
        state
    }
}

/// The piece is still to be fetched, and no peer is to bring it.
pub open spec fn free(piece: TransferPiece) -> bool {
    !piece.completed && piece.assigned_to is None
}

/// The peer has the piece at a place of the list, and it is free.
pub open spec fn suits(pieces: Seq<TransferPiece>, available: Seq<bool>, i: int) -> bool {
    free(pieces[i]) && 0 <= pieces[i].idx < available.len() && available[pieces[i].idx as int]
}

/// The first piece that is free and that the peer has is at a place of the list.
pub open spec fn first_suiting(pieces: Seq<TransferPiece>, available: Seq<bool>, i: int) -> bool {
    &&& 0 <= i < pieces.len()
    &&& suits(pieces, available, i)
    &&& forall|j: int| 0 <= j < i ==> !suits(pieces, available, j)
}

/// The peer says of every free piece whether it has it, up to the first one that
/// it has.
pub open spec fn search_ok(pieces: Seq<TransferPiece>, available: Seq<bool>) -> bool {
    forall|i: int|
        0 <= i < pieces.len() && free(#[trigger] pieces[i]) && pieces[i].idx >= available.len()
            ==> exists|j: int| 0 <= j < i && #[trigger] suits(pieces, available, j)
}

/// Lays out pieces in files, or gives nothing back where the files are not
/// enough.
pub fn try_calculate_pieces_info(files: &Vec<u64>, piece_count: usize, piece_length: u64) -> (pieces:
    Option<Vec<TransferPiece>>)
    ensures
        match pieces {
            Some(list) => layout_ok(files@, piece_length, piece_count as nat) && list@ == Seq::new(
                piece_count as nat,
                |i: int| fresh_piece(files@, piece_length, i),
            ),
            None => !layout_ok(files@, piece_length, piece_count as nat),
        },
{
    if files.len() == 0 {
        return None;
    }
    let length: usize = piece_length as usize;
    let mut pieces: Vec<TransferPiece> = Vec::new();
    let mut file_idx: usize = 0;
    let mut file_position: usize = 0;
    let mut i: usize = 0;
    while i < piece_count
        invariant
            i <= piece_count,
            length == piece_length as usize,
            files@.len() > 0,
            i < piece_count ==> piece_start(files@, piece_length, i as nat) == (
                file_idx as int,
                file_position as int,
            ),
            forall|k: nat|
                k < i ==> {
                    let (file, position) = #[trigger] piece_start(files@, piece_length, k);
                    file < files@.len() && position + length <= usize::MAX
                },
            pieces@.len() == i,
            forall|k: int|
                0 <= k < i ==> #[trigger] pieces@[k] == fresh_piece(files@, piece_length, k),
        decreases piece_count - i,
    {
        let ghost start = piece_start(files@, piece_length, i as nat);
        if file_idx >= files.len() || length > usize::MAX - file_position {
            return None;
        }
        pieces.push(
            TransferPiece {
                idx: i,
                length,
                completed: false,
                start_file: file_idx,
                start_position: file_position,
                assigned_to: None,
            },
        );
        let end: usize = file_position + length;
        let file_size: usize = files[file_idx] as usize;
        if end >= file_size {
            file_idx = file_idx + 1;
            file_position = end - file_size;
        } else {
            file_position = end;
        }
        i = i + 1;
        assert(piece_start(files@, piece_length, i as nat) == (
            file_idx as int,
            file_position as int,
        ));
    }
    assert(pieces@ =~= Seq::new(
        piece_count as nat,
        |i: int| fresh_piece(files@, piece_length, i),
    ));
    Some(pieces)
}

/// Where a file that is too short has to be extended: at its last byte.
pub fn extension(file_size: u64, size: u64) -> (position: Option<u64>)
    ensures
        position == (if file_size < size {
            Some((size - 1) as u64)
        } else {
            None
        }),
{
    if file_size < size {
        Some(size - 1)
    } else {
        None
    }
}

/// A torrent that is being fetched.
pub struct Transfer {
    torrent_data: ParsedTorrent,
    pieces: Vec<TransferPiece>,
    piece_length: u64,
    files: Vec<u64>,
    left: u64,
    total_size: u64,
    total_uploaded: u64,
    total_downloaded: u64,
}

impl Transfer {
    /// The state of the torrent.
    pub closed spec fn state(self) -> TransferState {
        TransferState {
            torrent: self.torrent_data.value(),
            pieces: self.pieces@,
            piece_length: self.piece_length,
            sizes: self.files@,
            left: self.left,
            total_size: self.total_size,
            total_uploaded: self.total_uploaded,
            total_downloaded: self.total_downloaded,
        }
    }

    /// Lays out a torrent, or gives nothing back where its files are not enough
    /// for its pieces or too long to be counted.
    pub fn try_create(torrent_data: ParsedTorrent) -> (transfer: Option<Transfer>)
        ensures
            match transfer {
                Some(t) => torrent_ok(torrent_data.value()) && t.state() == fresh_transfer(
                    torrent_data.value(),
                ) && transfer_ok(t.state()),
                None => !torrent_ok(torrent_data.value()),
            },
    {
        let piece_count: usize = torrent_data.info().pieces().len();
        let piece_length: u64 = torrent_data.info().piece_length();
        let ghost torrent = torrent_data.value();
        let ghost sizes = sizes_of(torrent.info.files);
        let names = torrent_data.get_files();
        let mut files: Vec<u64> = Vec::with_capacity(names.len());
        let mut total_size: u64 = 0;
        let mut counted = true;
        let mut i: usize = 0;
        while i < names.len()
            invariant
                i <= names@.len(),
                named_sizes(names@) == torrent.info.files,
                sizes == sizes_of(torrent.info.files),
                files@ == sizes.take(i as int),
                counted ==> total_size == bytes_before(sizes, i as int),
                !counted ==> bytes_before(sizes, i as int) > u64::MAX,
            decreases names@.len() - i,
        {
            let size: u64 = names[i].1;
            assert(sizes[i as int] == torrent.info.files[i as int].1);
            assert(torrent.info.files[i as int] == (names@[i as int].0@, names@[i as int].1));
            assert(sizes[i as int] == size);
            files.push(size);
            if counted && size <= u64::MAX - total_size {
                total_size = total_size + size;
            } else {
                counted = false;
            }
            i = i + 1;
            assert(files@ =~= sizes.take(i as int));
        }
        assert(sizes.take(i as int) =~= sizes);
        if !counted {
            return None;
        }
        let pieces = match try_calculate_pieces_info(&files, piece_count, piece_length) {
            Some(pieces) => pieces,
            None => return None,
        };
        let transfer = Transfer {
            torrent_data,
            pieces,
            piece_length,
            files,
            left: total_size,
            total_size,
            total_uploaded: 0,
            total_downloaded: 0,
        };
        assert(transfer.state() =~= fresh_transfer(torrent));
        Some(transfer)
    }

    /// Lays out a torrent.
    pub fn create(torrent_data: ParsedTorrent) -> (transfer: Transfer)
        requires
            torrent_ok(torrent_data.value()),
        ensures
            transfer.state() == fresh_transfer(torrent_data.value()),
            transfer_ok(transfer.state()),
    {
        Transfer::try_create(torrent_data).unwrap()
    }

    /// The metainfo of the torrent.
    pub fn torrent_data(&self) -> (torrent: &ParsedTorrent)
        ensures
            torrent.value() == self.state().torrent,
    {
        &self.torrent_data
    }

    /// The digest that the torrent is known by.
    pub fn info_hash(&self) -> (hash: [u8; 20])
        ensures
            hash@ == self.state().torrent.info.info_hash,
    {
        *self.torrent_data.info().info_hash()
    }

    /// The number of pieces.
    pub fn piece_count(&self) -> (count: usize)
        ensures
            count == self.state().pieces.len(),
    {
        self.pieces.len()
    }

    /// The pieces.
    pub fn pieces(&self) -> (pieces: &Vec<TransferPiece>)
        ensures
            pieces@ == self.state().pieces,
    {
        &self.pieces
    }

    /// Which pieces are complete.
    pub fn pieces_status(&self) -> (status: Vec<bool>)
        ensures
            status@ == self.state().pieces.map_values(|piece: TransferPiece| piece.completed),
    {
        let mut status: Vec<bool> = Vec::with_capacity(self.pieces.len());
        let mut i: usize = 0;
        while i < self.pieces.len()
            invariant
                i <= self.pieces@.len(),
                status@.len() == i,
                forall|k: int| 0 <= k < i ==> #[trigger] status@[k] == self.pieces@[k].completed,
            decreases self.pieces@.len() - i,
        {
            status.push(self.pieces[i].completed);
            i = i + 1;
        }
        assert(status@ =~= self.state().pieces.map_values(
            |piece: TransferPiece| piece.completed,
        ));
        status
    }

    /// Whether the peer says of every free piece whether it has it, up to the
    /// first one that it has.
    pub fn can_search(&self, available_pieces: &Vec<bool>) -> (can: bool)
        ensures
            can == search_ok(self.state().pieces, available_pieces@),
    {
        let ghost pieces = self.pieces@;
        let ghost available = available_pieces@;
        let mut i: usize = 0;
        while i < self.pieces.len()
            invariant
                i <= self.pieces@.len(),
                pieces == self.pieces@,
                available == available_pieces@,
                forall|k: int| 0 <= k < i ==> !#[trigger] suits(pieces, available, k),
                forall|k: int|
                    0 <= k < i ==> !(free(#[trigger] pieces[k]) && pieces[k].idx
                        >= available.len()),
            decreases self.pieces@.len() - i,
        {
            let piece = self.pieces[i];
            if !piece.completed && piece.assigned_to.is_none() {
                if piece.idx >= available_pieces.len() {
                    assert(free(pieces[i as int]));
                    return false;
                }
                if available_pieces[piece.idx] {
                    assert(suits(pieces, available, i as int));
                    return true;
                }
            }
            i = i + 1;
        }
        true
    }

    /// The place of the first piece that is free and that the peer has.
    pub fn find_piece_for_peer(&self, available_pieces: &Vec<bool>) -> (place: Option<usize>)
        requires
            available_pieces@.len() == 0 || search_ok(self.state().pieces, available_pieces@),
        ensures
            match place {
                Some(i) => first_suiting(self.state().pieces, available_pieces@, i as int),
                None => forall|i: int|
                    0 <= i < self.state().pieces.len() ==> !#[trigger] suits(
                        self.state().pieces,
                        available_pieces@,
                        i,
                    ),
            },
    {
        if available_pieces.len() == 0 {
            return None;
        }
        let ghost pieces = self.pieces@;
        let ghost available = available_pieces@;
        let mut i: usize = 0;
        while i < self.pieces.len()
            invariant
                i <= self.pieces@.len(),
                pieces == self.pieces@,
                available == available_pieces@,
                search_ok(pieces, available),
                forall|k: int| 0 <= k < i ==> !#[trigger] suits(pieces, available, k),
            decreases self.pieces@.len() - i,
        {
            let piece = self.pieces[i];
            assert(piece == pieces[i as int]);
            if !piece.completed && piece.assigned_to.is_none() && available_pieces[piece.idx] {
                assert(suits(pieces, available, i as int));
                return Some(i);
            }
            i = i + 1;
        }
        None
    }

    /// The first piece that is free and that the peer has.
    pub fn get_piece_for_peer(&mut self, available_pieces: &Vec<bool>) -> (piece: Option<
        &mut TransferPiece,
    >)
        requires
            available_pieces@.len() == 0 || search_ok(old(self).state().pieces, available_pieces@),
        ensures
            match piece {
                Some(p) => exists|i: int| #[trigger]
                    first_suiting(old(self).state().pieces, available_pieces@, i) && *p == old(
                        self,
                    ).state().pieces[i] && final(self).state() == (TransferState {
                        pieces: old(self).state().pieces.update(i, *final(p)),
                        ..old(self).state()
                    }),
                None => *final(self) == *old(self) && (forall|i: int|
                    0 <= i < old(self).state().pieces.len() ==> !#[trigger] suits(
                        old(self).state().pieces,
                        available_pieces@,
                        i,
                    )),
            },
    {
        match self.find_piece_for_peer(available_pieces) {
            Some(i) => Some(&mut self.pieces[i]),
            None => None,
        }
    }

    /// Lets any peer bring the piece again.
    pub fn unassign_piece(&mut self, piece: usize)
        requires
            piece < old(self).state().pieces.len(),
        ensures
            final(self).state() == unassigned(old(self).state(), piece as int),
            transfer_ok(old(self).state()) ==> transfer_ok(final(self).state()),
    {
        let changed = TransferPiece { assigned_to: None, ..self.pieces[piece] };
        self.pieces.set(piece, changed);
    }

    /// Lets a peer bring the piece.
    pub fn assign_piece(&mut self, piece: usize, address: PeerAddress)
        requires
            piece < old(self).state().pieces.len(),
        ensures
            final(self).state() == assigned(old(self).state(), piece as int, address),
            transfer_ok(old(self).state()) ==> transfer_ok(final(self).state()),
    {
        let mut changed = self.pieces[piece];
        changed.set_assigned(address);
        self.pieces.set(piece, changed);
    }

    /// Whether every piece is complete.
    pub fn is_complete(&self) -> (complete: bool)
        ensures
            complete == all_complete(self.state()),
    {
        let mut i: usize = 0;
        while i < self.pieces.len()
            invariant
                i <= self.pieces@.len(),
                forall|k: int| 0 <= k < i ==> (#[trigger] self.pieces@[k]).completed,
            decreases self.pieces@.len() - i,
        {
            if !self.pieces[i].completed {
                assert(!self.state().pieces[i as int].completed);
                return false;
            }
            i = i + 1;
        }
        true
    }

    /// How far the torrent has come.
    pub fn get_progress(&self) -> (progress: TransferProgress)
        ensures
            progress == progress_of(self.state()),
    {
        TransferProgress {
            left: self.left,
            total: self.total_size,
            uploaded: self.total_uploaded,
            downloaded: self.total_downloaded,
        }
    }

    /// The trackers, in order and each one once: the one of the metainfo, and
    /// those of its list that are not empty.
    pub fn get_trackers(&self) -> (trackers: Vec<String>)
        ensures
            ascending(texts(trackers@)),
            forall|url: Seq<char>| #[trigger]
                texts(trackers@).contains(url) <==> is_tracker(self.state().torrent, url),
    {
        let ghost torrent = self.torrent_data.value();
        let list = self.torrent_data.announce_list();
        let mut all: Vec<String> = Vec::with_capacity(1);
        all.push(self.torrent_data.announce().as_str().to_owned());
        let mut i: usize = 0;
        proof {
            assert(texts(all@)[0] == torrent.announce);
            assert forall|url: Seq<char>| #[trigger]
                texts(all@).contains(url) <==> url == torrent.announce by {
                if texts(all@).contains(url) {
                    let k = choose|k: int|
                        0 <= k < texts(all@).len() && #[trigger] texts(all@)[k] == url;
                    assert(k == 0);
                }
            }
        }
        while i < list.len()
            invariant
                i <= list@.len(),
                torrent == self.torrent_data.value(),
                texts(list@) == torrent.announce_list,
                forall|url: Seq<char>| #[trigger]
                    texts(all@).contains(url) <==> url == torrent.announce || (url.len() > 0
                        && torrent.announce_list.take(i as int).contains(url)),
            decreases list@.len() - i,
        {
            let ghost before = texts(all@);
            let ghost tracker = torrent.announce_list[i as int];
            let ghost shorter = torrent.announce_list.take(i as int);
            let ghost longer = torrent.announce_list.take(i + 1);
            assert(tracker == list@[i as int]@);
            assert(longer =~= shorter.push(tracker));
            let url = list[i].as_str();
            if url.unicode_len() > 0 {
                all.push(url.to_owned());
                assert(texts(all@) =~= before.push(tracker));
            }
            proof {
                assert forall|url: Seq<char>| #[trigger]
                    texts(all@).contains(url) <==> url == torrent.announce || (url.len() > 0
                        && longer.contains(url)) by {
                    lemma_push_contains(before, tracker, url);
                    lemma_push_contains(shorter, tracker, url);
                    assert(before.contains(url) <==> url == torrent.announce || (url.len() > 0
                        && shorter.contains(url)));
                }
            }
            i = i + 1;
        }
        assert(torrent.announce_list.take(i as int) =~= torrent.announce_list);
        let trackers = sorted_unique(all);
        assert forall|url: Seq<char>| #[trigger]
            texts(trackers@).contains(url) <==> is_tracker(self.state().torrent, url) by {
            assert(texts(trackers@).contains(url) <==> texts(all@).contains(url));
        }
        trackers
    }

    /// Begins to look for pieces that are there: all is left.
    pub fn check_torrent(&mut self)
        ensures
            final(self).state() == (TransferState {
                left: old(self).state().total_size,
                ..old(self).state()
            }),
            transfer_ok(old(self).state()) ==> transfer_ok(final(self).state()),
    {
        self.left = self.total_size;
    }

    /// Whether the data has the digest of the piece.
    fn matches(&self, piece: usize, data: &[u8]) -> (same: bool)
        requires
            transfer_ok(self.state()),
            piece < self.state().pieces.len(),
            data@.len() <= MAX_HASHED_LEN,
        ensures
            same == digest_matches(self.state(), piece as int, data@),
    {
        let digest = sha1_digest(data);
        let pieces = self.torrent_data.info().pieces();
        assert(contents(pieces@)[piece as int] == pieces@[piece as int]@);
        same_bytes(digest.as_slice(), pieces[piece].as_slice())
    }

    /// Notes whether the data that was read for a piece is the piece, or gives
    /// nothing back where more is found to be there than is left.
    pub fn check_piece(&mut self, piece: usize, data: &[u8]) -> (there: Option<bool>)
        requires
            transfer_ok(old(self).state()),
            piece < old(self).state().pieces.len(),
            data@.len() <= MAX_HASHED_LEN,
        ensures
            match there {
                Some(t) => t == digest_matches(old(self).state(), piece as int, data@) && (t
                    ==> data@.len() <= old(self).state().left) && final(self).state()
                    == piece_checked(old(self).state(), piece as int, data@),
                None => digest_matches(old(self).state(), piece as int, data@) && data@.len()
                    > old(self).state().left && *final(self) == *old(self),
            },
            transfer_ok(final(self).state()),
    {
        let there = self.matches(piece, data);
        if there && data.len() as u64 > self.left {
            return None;
        }
        let changed = TransferPiece {
            length: data.len(),
            completed: there,
            ..self.pieces[piece]
        };
        self.pieces.set(piece, changed);
        if there {
            self.left = self.left - data.len() as u64;
        }
        Some(there)
    }

    /// Notes the data of a piece that came from a peer, and says where it is to be
    /// written, or that it is not the piece. Nothing comes back where the piece is
    /// longer than what is left, or cannot be written.
    pub fn add_complete_piece(&mut self, piece: usize, data: &[u8]) -> (added: Option<Added>)
        requires
            transfer_ok(old(self).state()),
            piece < old(self).state().pieces.len(),
            data@.len() <= MAX_HASHED_LEN,
        ensures
            match added {
                Some(Added::Complete(spans)) => digest_matches(
                    old(self).state(),
                    piece as int,
                    data@,
                ) && addable(old(self).state(), piece as int, data@) && spans@ == write_spans(
                    old(self).state().sizes,
                    old(self).state().pieces[piece as int],
                    data@.len() as int,
                ) && final(self).state() == piece_added(old(self).state(), piece as int, data@),
                Some(Added::Invalid) => !digest_matches(old(self).state(), piece as int, data@)
                    && *final(self) == *old(self),
                None => digest_matches(old(self).state(), piece as int, data@) && !addable(
                    old(self).state(),
                    piece as int,
                    data@,
                ) && *final(self) == *old(self),
            },
            transfer_ok(final(self).state()),
    {
        if !self.matches(piece, data) {
            return Some(Added::Invalid);
        }
        if data.len() as u64 > self.left {
            return None;
        }
        let spans = match self.try_write_piece(piece, data.len()) {
            Some(spans) => spans,
            None => return None,
        };
        self.left = self.left - data.len() as u64;
        let changed = TransferPiece { completed: true, ..self.pieces[piece] };
        self.pieces.set(piece, changed);
        Some(Added::Complete(spans))
    }

    /// Where a piece is read from, or nothing where it cannot be read.
    pub fn try_read_piece(&self, piece: usize) -> (spans: Option<Vec<Span>>)
        requires
            piece < self.state().pieces.len(),
        ensures
            match spans {
                Some(list) => piece_readable(self.state(), piece as int) && list@ == piece_spans(
                    self.state(),
                    piece as int,
                ),
                None => !piece_readable(self.state(), piece as int),
            },
    {
        let piece_length: usize = self.piece_length as usize;
        let info = self.pieces[piece];
        if info.start_file >= self.files.len() {
            return None;
        }
        let file_size: usize = self.files[info.start_file] as usize;
        if info.start_position > file_size {
            return None;
        }
        let remaining: usize = file_size - info.start_position;
        let first: usize = if remaining >= piece_length {
            piece_length
        } else {
            remaining
        };
        let mut spans: Vec<Span> = Vec::new();
        spans.push(
            Span {
                file: info.start_file,
                position: info.start_position as u64,
                length: first,
            },
        );
        if first != piece_length && piece != self.pieces.len() - 1 {
            if info.start_file + 1 >= self.files.len() {
                return None;
            }
            spans.push(
                Span { file: info.start_file + 1, position: 0, length: piece_length - first },
            );
        }
        assert(spans@ =~= piece_spans(self.state(), piece as int));
        Some(spans)
    }

    /// Where a piece is read from.
    pub fn read_piece(&self, piece: usize) -> (spans: Vec<Span>)
        requires
            piece < self.state().pieces.len(),
            piece_readable(self.state(), piece as int),
        ensures
            spans@ == piece_spans(self.state(), piece as int),
    {
        self.try_read_piece(piece).unwrap()
    }

    /// Where data of a length is written for a piece, or nothing where it cannot
    /// be written.
    pub fn try_write_piece(&self, piece: usize, length: usize) -> (spans: Option<Vec<Span>>)
        requires
            piece < self.state().pieces.len(),
        ensures
            match spans {
                Some(list) => writable(
                    self.state().sizes,
                    self.state().pieces[piece as int],
                    length as int,
                ) && list@ == write_spans(
                    self.state().sizes,
                    self.state().pieces[piece as int],
                    length as int,
                ),
                None => !writable(
                    self.state().sizes,
                    self.state().pieces[piece as int],
                    length as int,
                ),
            },
    {
        let info = self.pieces[piece];
        if info.start_file >= self.files.len() || length > usize::MAX - info.start_position {
            return None;
        }
        let file_size: usize = self.files[info.start_file] as usize;
        let mut spans: Vec<Span> = Vec::new();
        if info.start_position + length > file_size {
            if info.start_position > file_size || info.start_file + 1 >= self.files.len() {
                return None;
            }
            let first: usize = file_size - info.start_position;
            spans.push(
                Span {
                    file: info.start_file,
                    position: info.start_position as u64,
                    length: first,
                },
            );
            spans.push(Span { file: info.start_file + 1, position: 0, length: length - first });
        } else {
            spans.push(
                Span { file: info.start_file, position: info.start_position as u64, length },
            );
        }
        assert(spans@ =~= write_spans(
            self.state().sizes,
            self.state().pieces[piece as int],
            length as int,
        ));
        Some(spans)
    }
}

/// What became of the data of a piece.
pub enum Added {
    /// The piece is complete, and its data is to be written to these stretches.
    Complete(Vec<Span>),
    /// The data is not the piece.
    Invalid,
}

/// The bytes of a piece: what was read from its first file, and what was read
/// from the next one where that could be read.
pub fn join_parts(first: Vec<u8>, second: Option<Vec<u8>>) -> (data: Vec<u8>)
    ensures
        data@ == (match second {
            Some(rest) => first@ + rest@,
            None => first@,
        }),
{
    let mut data = first;
    if let Some(rest) = second {
        let mut rest = rest;
        data.append(&mut rest);
    }
    data
}

/// The state with the piece free for any peer.
pub open spec fn unassigned(state: TransferState, piece: int) -> TransferState {
    TransferState {
        pieces: state.pieces.update(
            piece,
            TransferPiece { assigned_to: None, ..state.pieces[piece] },
        ),
        ..state
    }
}

/// The state with the piece left to a peer.
pub open spec fn assigned(state: TransferState, piece: int, address: PeerAddress) -> TransferState {
    TransferState {
        pieces: state.pieces.update(
            piece,
            TransferPiece { assigned_to: Some(address), ..state.pieces[piece] },
        ),
        ..state
    }
}

/// Every piece is complete.
pub open spec fn all_complete(state: TransferState) -> bool {
    forall|i: int| 0 <= i < state.pieces.len() ==> (#[trigger] state.pieces[i]).completed
}

/// How far a torrent has come.
pub open spec fn progress_of(state: TransferState) -> TransferProgress {
    TransferProgress {
        left: state.left,
        total: state.total_size,
        uploaded: state.total_uploaded,
        downloaded: state.total_downloaded,
    }
}

/// The torrent has the tracker: in the first place, or in the list and not empty.
pub open spec fn is_tracker(torrent: TorrentValue, url: Seq<char>) -> bool {
    url == torrent.announce || (url.len() > 0 && torrent.announce_list.contains(url))
}

/// The piece can be read.
pub open spec fn piece_readable(state: TransferState, piece: int) -> bool {
    readable(
        state.sizes,
        state.piece_length,
        state.pieces[piece],
        piece == state.pieces.len() - 1,
    )
}

/// Where the piece is read from.
pub open spec fn piece_spans(state: TransferState, piece: int) -> Seq<Span> {
    read_spans(
        state.sizes,
        state.piece_length,
        state.pieces[piece],
        piece == state.pieces.len() - 1,
    )
}

/// The data of a complete piece is no longer than what is left, and can be
/// written.
pub open spec fn addable(state: TransferState, piece: int, data: Seq<u8>) -> bool {
    &&& data.len() <= state.left
    &&& writable(state.sizes, state.pieces[piece], data.len() as int)
}

proof fn lemma_push_contains(list: Seq<Seq<char>>, item: Seq<char>, url: Seq<char>)
    ensures
        list.push(item).contains(url) <==> list.contains(url) || url == item,
{
    let longer = list.push(item);
    if longer.contains(url) {
        let k = choose|k: int| 0 <= k < longer.len() && longer[k] == url;
        if k < list.len() {
            assert(list[k] == url);
        }
    }
    if list.contains(url) {
        let k = choose|k: int| 0 <= k < list.len() && list[k] == url;
        assert(longer[k] == url);
    }
    if url == item {
        assert(longer[list.len() as int] == url);
    }
}

/// A piece of which another peer was relieved is free again, and the other
/// pieces are as they were.
pub proof fn lemma_unassigned_is_free(state: TransferState, piece: int)
    requires
        0 <= piece < state.pieces.len(),
        !state.pieces[piece].completed,
    ensures
        free(unassigned(state, piece).pieces[piece]),
        forall|i: int|
            0 <= i < state.pieces.len() && i != piece ==> #[trigger] unassigned(
                state,
                piece,
            ).pieces[i] == state.pieces[i],
{
}

/// A piece that a peer is to bring, or that is complete, is not given to another
/// peer.
pub proof fn lemma_taken_piece_is_not_given(
    state: TransferState,
    available: Seq<bool>,
    piece: int,
    address: PeerAddress,
)
    requires
        0 <= piece < state.pieces.len(),
    ensures
        !suits(assigned(state, piece, address).pieces, available, piece),
        state.pieces[piece].completed ==> !suits(state.pieces, available, piece),
{
}

/// A torrent without a free piece gives no piece to any peer.
pub proof fn lemma_complete_gives_nothing(state: TransferState, available: Seq<bool>)
    requires
        all_complete(state),
    ensures
        forall|i: int|
            0 <= i < state.pieces.len() ==> !#[trigger] suits(state.pieces, available, i),
{
}

/// A piece that came from a peer and was written is the piece that is read from then
/// on, also where it goes on in the next file: for every piece but the last one, as long
/// as a piece is, that lies in no more than two files.
pub proof fn lemma_added_piece_is_read(
    state: TransferState,
    piece: int,
    data: Seq<u8>,
    files: Seq<Seq<u8>>,
)
    requires
        0 <= piece < state.pieces.len() - 1,
        digest_matches(state, piece, data),
        addable(state, piece, data),
        data.len() == state.piece_length,
        files.len() == state.sizes.len() <= usize::MAX,
        forall|i: int|
            0 <= i < files.len() ==> #[trigger] state.sizes[i] <= files[i].len() && state.sizes[i]
                <= usize::MAX,
        state.pieces[piece].start_position + data.len()
            > state.sizes[state.pieces[piece].start_file as int] ==> state.pieces[piece].start_position
            + data.len() <= state.sizes[state.pieces[piece].start_file as int]
            + state.sizes[state.pieces[piece].start_file + 1],
    ensures
        ({
            let after = piece_added(state, piece, data);
            &&& after.pieces[piece].completed
            &&& piece_readable(after, piece)
            &&& files_read(
                files_written(
                    files,
                    write_spans(state.sizes, state.pieces[piece], data.len() as int),
                    data,
                ),
                piece_spans(after, piece),
            ) == data
        }),
{
    let after = piece_added(state, piece, data);
    let spans = piece_spans(after, piece);
    let first = state.pieces[piece].start_file as int;
    assert(state.sizes[first] <= usize::MAX);
    reveal_with_fuel(spans_length, 3);
    if spans.len() == 2 {
        assert(state.sizes[first + 1] <= usize::MAX);
        assert(spans.drop_last().drop_last() =~= Seq::empty());
    } else {
        assert(spans.drop_last() =~= Seq::empty());
    }
    lemma_write_then_read(
        files,
        state.sizes,
        state.piece_length,
        after.pieces[piece],
        false,
        data,
    );
}

/// What of the data goes to each of the stretches, one after the other.
pub open spec fn parts_of(spans: Seq<Span>, data: Seq<u8>) -> Seq<Seq<u8>> {
    Seq::new(
        spans.len(),
        |k: int| data.subrange(spans_length(spans.take(k)), spans_length(spans.take(k + 1))),
    )
}

/// The files after each part was written to its stretch, one after the other.
pub open spec fn parts_written(
    files: Seq<Seq<u8>>,
    spans: Seq<Span>,
    parts: Seq<Seq<u8>>,
) -> Seq<Seq<u8>>
    decreases spans.len(),
{
    if spans.len() == 0 {
        files
    } else {
        let before = parts_written(files, spans.drop_last(), parts.drop_last());
        let span = spans.last();
        before.update(
            span.file as int,
            with_block(before[span.file as int], span.position as int, parts.last()),
        )
    }
}

/// Parts the data of a piece over its stretches, or gives nothing back where it is
/// not as long as they are.
pub fn try_split(spans: &Vec<Span>, data: &[u8]) -> (parts: Option<Vec<Vec<u8>>>)
    ensures
        match parts {
            Some(list) => data@.len() == spans_length(spans@) && contents(list@) == parts_of(
                spans@,
                data@,
            ),
            None => data@.len() != spans_length(spans@),
        },
{
    let mut parts: Vec<Vec<u8>> = Vec::new();
    let mut from: usize = 0;
    let mut i: usize = 0;
    while i < spans.len()
        invariant
            i <= spans@.len(),
            from == spans_length(spans@.take(i as int)),
            from <= data@.len(),
            parts@.len() == i,
            forall|k: int|
                0 <= k < i ==> (#[trigger] parts@[k])@ == parts_of(spans@, data@)[k],
        decreases spans@.len() - i,
    {
        assert(spans@.take(i + 1).drop_last() =~= spans@.take(i as int));
        if spans[i].length > data.len() - from {
            proof {
                lemma_spans_grow(spans@, i + 1);
            }
            return None;
        }
        let to: usize = from + spans[i].length;
        parts.push(copy_range(data, from, to));
        from = to;
        i = i + 1;
    }
    assert(spans@.take(i as int) =~= spans@);
    if from == data.len() {
        assert(contents(parts@) =~= parts_of(spans@, data@));
        Some(parts)
    } else {
        None
    }
}

/// The first stretches hold no more bytes than all of them.
proof fn lemma_spans_grow(spans: Seq<Span>, count: int)
    requires
        0 <= count <= spans.len(),
    ensures
        spans_length(spans.take(count)) <= spans_length(spans),
    decreases spans.len() - count,
{
    if count < spans.len() {
        assert(spans.take(count + 1).drop_last() =~= spans.take(count));
        lemma_spans_grow(spans, count + 1);
    } else {
        assert(spans.take(count) =~= spans);
    }
}

/// Writing each part to its stretch writes the data to the stretches.
pub proof fn lemma_parts_are_written(files: Seq<Seq<u8>>, spans: Seq<Span>, data: Seq<u8>)
    ensures
        parts_written(files, spans, parts_of(spans, data)) == files_written(files, spans, data),
    decreases spans.len(),
{
    if spans.len() > 0 {
        let shorter = spans.drop_last();
        let count = shorter.len() as int;
        lemma_parts_are_written(files, shorter, data);
        assert forall|k: int| 0 <= k < count implies parts_of(shorter, data)[k] == parts_of(
            spans,
            data,
        )[k] by {
            assert(shorter.take(k) =~= spans.take(k));
            assert(shorter.take(k + 1) =~= spans.take(k + 1));
        }
        assert(parts_of(spans, data).drop_last() =~= parts_of(shorter, data));
        assert(spans.take(count) =~= shorter);
        assert(spans.take(count + 1) =~= spans);
    }
}

} // verus!
