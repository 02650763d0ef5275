//! Where the pieces of a torrent lie, and what is noted of them.
use vstd::prelude::*;

use crate::address::PeerAddress;
use crate::bencode::TorrentValue;

use crate::engine::transfer::{
    Span, TransferPiece, TransferState, addable, assigned, bytes_before, files_written,
    fresh_transfer, layout_ok, lemma_piece_start, parts_of, piece_added, piece_checked,
    piece_readable, piece_spans, piece_start, progress_of, sizes_of, spans_length, suits,
    torrent_ok, unassigned, writable, write_spans,
};
use crate::engine::takable;
use crate::hashing::sha1_of;

verus! {

/// The bytes of the files before one.
pub open spec fn file_offset(sizes: Seq<u64>, file: int) -> int
    decreases file,
{
    if file <= 0 {
        0
    } else {
        sizes[file - 1] + file_offset(sizes, file - 1)
    }
}

/// The place of the first byte of a stretch, counted through all files.
pub open spec fn place(sizes: Seq<u64>, span: Span) -> int {
    file_offset(sizes, span.file as int) + span.position
}

/// The pieces lie in the files from their beginning on, one after the other.
pub open spec fn laid_out(state: TransferState) -> bool {
    &&& layout_ok(state.sizes, state.piece_length, state.pieces.len())
    &&& state.sizes.len() <= usize::MAX
    &&& state.piece_length <= usize::MAX
    &&& forall|i: int| 0 <= i < state.sizes.len() ==> #[trigger] state.sizes[i] <= usize::MAX
    &&& forall|p: int|
        0 <= p < state.pieces.len() ==> {
            let (file, position) = piece_start(state.sizes, state.piece_length, p as nat);
            (#[trigger] state.pieces[p]).start_file == file && state.pieces[p].start_position
                == position
        }
}

proof fn lemma_file_offset(sizes: Seq<u64>, file: int)
    ensures
        file_offset(sizes, file) == bytes_before(sizes, file),
    decreases file,
{
    if file > 0 {
        lemma_file_offset(sizes, file - 1);
    }
}

/// A torrent that was just laid out is laid out, and stays so: what is noted of its
/// pieces does not move them.
pub proof fn lemma_stays_laid_out(
    torrent: TorrentValue,
    state: TransferState,
    piece: int,
    data: Seq<u8>,
    address: PeerAddress,
)
    requires
        torrent_ok(torrent),
        torrent.info.files.len() <= usize::MAX,
        torrent.info.piece_length <= usize::MAX,
        forall|i: int|
            0 <= i < torrent.info.files.len() ==> (#[trigger] torrent.info.files[i]).1
                <= usize::MAX,
        laid_out(state),
        0 <= piece < state.pieces.len(),
    ensures
        laid_out(fresh_transfer(torrent)),
        laid_out(piece_checked(state, piece, data)),
        laid_out(piece_added(state, piece, data)),
        laid_out(assigned(state, piece, address)),
        laid_out(unassigned(state, piece)),
{
    let fresh = fresh_transfer(torrent);
    let sizes = sizes_of(torrent.info.files);
    assert forall|i: int| 0 <= i < sizes.len() implies #[trigger] sizes[i] <= usize::MAX by {
        assert(sizes[i] == torrent.info.files[i].1);
    }
    assert forall|p: int| 0 <= p < fresh.pieces.len() implies ({
        let (file, position) = piece_start(fresh.sizes, fresh.piece_length, p as nat);
        (#[trigger] fresh.pieces[p]).start_file == file && fresh.pieces[p].start_position
            == position
    }) by {
        lemma_start_is_counted(fresh.sizes, fresh.piece_length, fresh.pieces.len(), p as nat);
    }
}

proof fn lemma_start_is_counted(sizes: Seq<u64>, piece_length: u64, count: nat, piece: nat)
    requires
        layout_ok(sizes, piece_length, count),
        sizes.len() <= usize::MAX,
        forall|i: int| 0 <= i < sizes.len() ==> #[trigger] sizes[i] <= usize::MAX,
        piece_length <= usize::MAX,
        piece < count,
    ensures
        ({
            let (file, position) = piece_start(sizes, piece_length, piece);
            &&& 0 <= file < sizes.len()
            &&& 0 <= position
            &&& position + piece_length <= usize::MAX
            &&& file_offset(sizes, file) + position == piece * piece_length
        }),
{
    assert(layout_ok(sizes, piece_length, piece));
    lemma_piece_start(sizes, piece_length, piece);
    lemma_file_offset(sizes, piece_start(sizes, piece_length, piece).0);
}

/// The stretches to which the data of a piece is written lie one behind the other in
/// the torrent, from the place of the piece on: counted through all files, the byte `j`
/// of the data of piece `p` lies at `p` times the length of a piece and `j` more.
pub proof fn lemma_written_in_its_place(state: TransferState, piece: int, length: int)
    requires
        laid_out(state),
        0 <= piece < state.pieces.len(),
        0 <= length,
        writable(state.sizes, state.pieces[piece], length),
    ensures
        ({
            let spans = write_spans(state.sizes, state.pieces[piece], length);
            &&& 1 <= spans.len() <= 2
            &&& place(state.sizes, spans[0]) == piece * state.piece_length
            &&& spans.len() == 1 ==> spans[0].length == length
            &&& spans[0].position + spans[0].length <= state.sizes[spans[0].file as int]
            &&& spans.len() == 2 ==> {
                &&& spans[1].file == spans[0].file + 1
                &&& spans[1].position == 0
                &&& place(state.sizes, spans[1]) == piece * state.piece_length + spans[0].length
                &&& spans[0].length + spans[1].length == length
                &&& spans[0].position + spans[0].length == state.sizes[spans[0].file as int]
            }
        }),
{
    lemma_start_is_counted(
        state.sizes,
        state.piece_length,
        state.pieces.len(),
        piece as nat,
    );
    let spans = write_spans(state.sizes, state.pieces[piece], length);
    assert(state.sizes[spans[0].file as int] <= usize::MAX);
}

/// A piece is read from where it lies in the torrent: from its place on, without a gap,
/// and all of it but for the last piece, which ends with its file.
pub proof fn lemma_read_from_its_place(state: TransferState, piece: int)
    requires
        laid_out(state),
        0 <= piece < state.pieces.len(),
        piece_readable(state, piece),
    ensures
        ({
            let spans = piece_spans(state, piece);
            let size = state.sizes[spans[0].file as int];
            &&& 1 <= spans.len() <= 2
            &&& place(state.sizes, spans[0]) == piece * state.piece_length
            &&& spans[0].position + spans[0].length <= size
            &&& spans.len() == 1 && piece < state.pieces.len() - 1 ==> spans[0].length
                == state.piece_length
            &&& piece == state.pieces.len() - 1 ==> spans.len() == 1 && (spans[0].length
                == state.piece_length || spans[0].position + spans[0].length == size)
            &&& spans[0].length <= state.piece_length
            &&& spans.len() == 2 ==> {
                &&& spans[1].file == spans[0].file + 1
                &&& spans[1].position == 0
                &&& place(state.sizes, spans[1]) == piece * state.piece_length + spans[0].length
                &&& spans[0].length + spans[1].length == state.piece_length
                &&& spans[0].position + spans[0].length == size
            }
        }),
{
    lemma_start_is_counted(
        state.sizes,
        state.piece_length,
        state.pieces.len(),
        piece as nat,
    );
    let spans = piece_spans(state, piece);
    assert(state.sizes[spans[0].file as int] <= usize::MAX);
}

/// Two stretches have no byte in common.
pub open spec fn apart(a: Span, b: Span) -> bool {
    a.file != b.file || a.position + a.length <= b.position || b.position + b.length <= a.position
}

proof fn lemma_offsets_grow(sizes: Seq<u64>, a: int, b: int)
    requires
        0 <= a <= b <= sizes.len(),
    ensures
        file_offset(sizes, a) <= file_offset(sizes, b),
    decreases b - a,
{
    if a < b {
        lemma_offsets_grow(sizes, a, b - 1);
    }
}

/// Where two different pieces are written, no byte is written for both.
pub proof fn lemma_pieces_are_apart(
    state: TransferState,
    piece: int,
    length: int,
    other: int,
    other_length: int,
    i: int,
    j: int,
)
    requires
        laid_out(state),
        0 <= piece < state.pieces.len(),
        0 <= other < state.pieces.len(),
        piece != other,
        0 <= length <= state.piece_length,
        0 <= other_length <= state.piece_length,
        writable(state.sizes, state.pieces[piece], length),
        writable(state.sizes, state.pieces[other], other_length),
        0 <= i < write_spans(state.sizes, state.pieces[piece], length).len(),
        0 <= j < write_spans(state.sizes, state.pieces[other], other_length).len(),
    ensures
        apart(
            write_spans(state.sizes, state.pieces[piece], length)[i],
            write_spans(state.sizes, state.pieces[other], other_length)[j],
        ),
{
    if piece < other {
        lemma_earlier_is_before(state, piece, length, other, other_length, i, j);
    } else {
        lemma_earlier_is_before(state, other, other_length, piece, length, j, i);
    }
}

proof fn lemma_earlier_is_before(
    state: TransferState,
    piece: int,
    length: int,
    later: int,
    later_length: int,
    i: int,
    j: int,
)
    requires
        laid_out(state),
        0 <= piece < later < state.pieces.len(),
        0 <= length <= state.piece_length,
        0 <= later_length <= state.piece_length,
        writable(state.sizes, state.pieces[piece], length),
        writable(state.sizes, state.pieces[later], later_length),
        0 <= i < write_spans(state.sizes, state.pieces[piece], length).len(),
        0 <= j < write_spans(state.sizes, state.pieces[later], later_length).len(),
    ensures
        apart(
            write_spans(state.sizes, state.pieces[piece], length)[i],
            write_spans(state.sizes, state.pieces[later], later_length)[j],
        ),
{
    lemma_written_in_its_place(state, piece, length);
    lemma_written_in_its_place(state, later, later_length);
    let a = write_spans(state.sizes, state.pieces[piece], length)[i];
    let b = write_spans(state.sizes, state.pieces[later], later_length)[j];
    let unit = state.piece_length as int;
    assert(piece * unit + unit <= later * unit) by (nonlinear_arith)
        requires
            piece + 1 <= later,
            0 <= unit,
    ;
    assert(place(state.sizes, a) + a.length <= piece * unit + unit);
    assert(place(state.sizes, b) >= later * unit);
}

/// A byte that no stretch holds is as it was, and no file changes its length.
proof fn lemma_written_elsewhere(
    files: Seq<Seq<u8>>,
    spans: Seq<Span>,
    data: Seq<u8>,
    file: int,
    at: int,
)
    requires
        0 <= file < files.len(),
        0 <= at < files[file].len(),
        forall|k: int|
            0 <= k < spans.len() ==> (#[trigger] spans[k]).file < files.len() && !(spans[k].file
                == file && spans[k].position <= at < spans[k].position + spans[k].length),
        spans_length(spans) <= data.len(),
    ensures
        files_written(files, spans, data).len() == files.len(),
        files_written(files, spans, data)[file].len() == files[file].len(),
        files_written(files, spans, data)[file][at] == files[file][at],
    decreases spans.len(),
{
    if spans.len() > 0 {
        let shorter = spans.drop_last();
        assert forall|k: int| 0 <= k < shorter.len() implies (#[trigger] shorter[k]).file
            < files.len() && !(shorter[k].file == file && shorter[k].position <= at
            < shorter[k].position + shorter[k].length) by {
            assert(shorter[k] == spans[k]);
        }
        assert(spans[spans.len() - 1] == spans.last());
        lemma_lengths_are_counted(shorter);
        lemma_written_elsewhere(files, shorter, data, file, at);
        let from = spans_length(shorter);
        assert(data.subrange(from, from + spans.last().length).len() == spans.last().length);
    }
}

proof fn lemma_lengths_are_counted(spans: Seq<Span>)
    ensures
        spans_length(spans) >= 0,
    decreases spans.len(),
{
    if spans.len() > 0 {
        lemma_lengths_are_counted(spans.drop_last());
    }
}

/// Writing a piece leaves every other piece as it is: each of its bytes is read as
/// before.
pub proof fn lemma_other_pieces_are_untouched(
    state: TransferState,
    piece: int,
    data: Seq<u8>,
    other: int,
    other_length: int,
    files: Seq<Seq<u8>>,
    i: int,
    at: int,
)
    requires
        laid_out(state),
        0 <= piece < state.pieces.len(),
        0 <= other < state.pieces.len(),
        piece != other,
        data.len() <= state.piece_length,
        0 <= other_length <= state.piece_length,
        writable(state.sizes, state.pieces[piece], data.len() as int),
        writable(state.sizes, state.pieces[other], other_length),
        files.len() == state.sizes.len(),
        0 <= i < write_spans(state.sizes, state.pieces[other], other_length).len(),
        ({
            let span = write_spans(state.sizes, state.pieces[other], other_length)[i];
            span.position <= at < span.position + span.length && at < files[span.file as int].len()
        }),
    ensures
        ({
            let span = write_spans(state.sizes, state.pieces[other], other_length)[i];
            let spans = write_spans(state.sizes, state.pieces[piece], data.len() as int);
            files_written(files, spans, data)[span.file as int][at] == files[span.file as int][at]
        }),
{
    let span = write_spans(state.sizes, state.pieces[other], other_length)[i];
    let spans = write_spans(state.sizes, state.pieces[piece], data.len() as int);
    lemma_written_in_its_place(state, piece, data.len() as int);
    lemma_written_in_its_place(state, other, other_length);
    assert forall|k: int| 0 <= k < spans.len() implies (#[trigger] spans[k]).file < files.len()
        && !(spans[k].file == span.file && spans[k].position <= at < spans[k].position
        + spans[k].length) by {
        lemma_pieces_are_apart(state, piece, data.len() as int, other, other_length, k, i);
    }
    reveal_with_fuel(spans_length, 3);
    if spans.len() == 2 {
        assert(spans.drop_last().drop_last() =~= Seq::empty());
        assert(spans.drop_last().last() == spans[0]);
    } else {
        assert(spans.drop_last() =~= Seq::empty());
    }
    assert(spans_length(spans) == data.len());
    lemma_written_elsewhere(files, spans, data, span.file as int, at);
}

/// A torrent of which nothing is known to be there has all its bytes left, no piece
/// complete and none given to a peer; its pieces are numbered and as long as the torrent
/// says.
pub proof fn lemma_nothing_is_there_at_first(torrent: TorrentValue)
    requires
        torrent_ok(torrent),
        torrent.info.piece_length <= usize::MAX,
        torrent.info.pieces.len() <= usize::MAX,
    ensures
        ({
            let state = fresh_transfer(torrent);
            let sizes = sizes_of(torrent.info.files);
            &&& state.torrent == torrent
            &&& state.left == state.total_size == file_offset(sizes, sizes.len() as int)
            &&& state.total_uploaded == 0 && state.total_downloaded == 0
            &&& sizes.len() == torrent.info.files.len()
            &&& forall|i: int| 0 <= i < sizes.len() ==> #[trigger] sizes[i]
                == torrent.info.files[i].1
            &&& state.sizes == sizes
            &&& state.pieces.len() == torrent.info.pieces.len()
            &&& forall|p: int|
                0 <= p < state.pieces.len() ==> {
                    let piece = #[trigger] state.pieces[p];
                    &&& piece.idx == p
                    &&& piece.length == torrent.info.piece_length
                    &&& !piece.completed
                    &&& piece.assigned_to is None
                }
        }),
{
    let sizes = sizes_of(torrent.info.files);
    lemma_file_offset(sizes, sizes.len() as int);
    lemma_counted(sizes, sizes.len() as int);
}

proof fn lemma_counted(sizes: Seq<u64>, file: int)
    ensures
        file_offset(sizes, file) >= 0,
    decreases file,
{
    if file > 0 {
        lemma_counted(sizes, file - 1);
    }
}

/// A piece is complete just when its bytes have the digest that the torrent names for
/// it; then as many bytes fewer are left. No other piece changes, and nothing else is
/// counted.
pub proof fn lemma_piece_is_noted(state: TransferState, piece: int, data: Seq<u8>)
    requires
        0 <= piece < state.pieces.len(),
        data.len() <= state.left,
        data.len() <= usize::MAX,
    ensures
        ({
            let found = piece_checked(state, piece, data);
            let came = piece_added(state, piece, data);
            let right = sha1_of(data) == state.torrent.info.pieces[piece];
            &&& found.pieces[piece].completed == right
            &&& found.pieces[piece].length == data.len()
            &&& came.pieces[piece].completed == (right || state.pieces[piece].completed)
            &&& came.pieces[piece].length == state.pieces[piece].length
            &&& right ==> found.left + data.len() == state.left && came.left + data.len()
                == state.left
            &&& !right ==> found.left == state.left && came == state
            &&& found.pieces.len() == state.pieces.len() == came.pieces.len()
            &&& forall|p: int|
                0 <= p < state.pieces.len() && p != piece ==> #[trigger] found.pieces[p]
                    == state.pieces[p] && came.pieces[p] == state.pieces[p]
            &&& found.pieces[piece].idx == came.pieces[piece].idx == state.pieces[piece].idx
            &&& found.pieces[piece].assigned_to == state.pieces[piece].assigned_to
            &&& came.pieces[piece].assigned_to == state.pieces[piece].assigned_to
            &&& progress_of(found).left == found.left && progress_of(found).total
                == state.total_size
            &&& progress_of(found).uploaded == state.total_uploaded
            &&& progress_of(found).downloaded == state.total_downloaded
            &&& progress_of(came).left == came.left && progress_of(came).total == state.total_size
        }),
{
}

/// A piece that is given to a peer, or taken from it, changes in nothing else, and no
/// other piece changes.
pub proof fn lemma_giving_changes_one_piece(state: TransferState, piece: int, address: PeerAddress)
    requires
        0 <= piece < state.pieces.len(),
    ensures
        assigned(state, piece, address).pieces[piece].assigned_to == Some(address),
        unassigned(state, piece).pieces[piece].assigned_to is None,
        ({
            let given = assigned(state, piece, address);
            let taken = unassigned(state, piece);
            &&& given.left == state.left == taken.left
            &&& given.pieces.len() == state.pieces.len() == taken.pieces.len()
            &&& forall|p: int|
                0 <= p < state.pieces.len() ==> {
                    &&& (#[trigger] given.pieces[p]).idx == taken.pieces[p].idx
                        == state.pieces[p].idx
                    &&& given.pieces[p].length == taken.pieces[p].length == state.pieces[p].length
                    &&& given.pieces[p].completed == state.pieces[p].completed
                    &&& taken.pieces[p].completed == state.pieces[p].completed
                    &&& p != piece ==> given.pieces[p].assigned_to == state.pieces[p].assigned_to
                        && taken.pieces[p].assigned_to == state.pieces[p].assigned_to
                }
            &&& unassigned(given, piece) == taken
        }),
{
    assert(unassigned(assigned(state, piece, address), piece) =~= unassigned(state, piece));
}

/// A piece suits a peer just where the peer has it, it is not complete and no peer is to
/// bring it.
pub proof fn lemma_suits(pieces: Seq<TransferPiece>, available: Seq<bool>, i: int)
    requires
        0 <= i < pieces.len(),
    ensures
        suits(pieces, available, i) <==> (pieces[i].idx < available.len()
            && available[pieces[i].idx as int] && !pieces[i].completed && pieces[i].assigned_to
            is None),
{
}

proof fn lemma_room(sizes: Seq<u64>, piece_length: u64, piece: nat)
    requires
        sizes.len() > 0,
        piece_length > 0,
        forall|i: int|
            0 <= i < sizes.len() ==> piece_length <= #[trigger] sizes[i] && sizes[i] + piece_length
                <= usize::MAX,
        piece * piece_length < file_offset(sizes, sizes.len() as int),
    ensures
        ({
            let (file, position) = piece_start(sizes, piece_length, piece);
            &&& 0 <= file < sizes.len()
            &&& 0 <= position < sizes[file]
            &&& file_offset(sizes, file) + position == piece * piece_length
        }),
    decreases piece,
{
    assert(piece_length <= sizes[0] && sizes[0] + piece_length <= usize::MAX);
    if piece == 0 {
        assert(piece * piece_length == 0) by (nonlinear_arith)
            requires
                piece == 0,
        ;
    } else {
        let before = (piece - 1) as nat;
        assert(piece * piece_length == before * piece_length + piece_length) by (nonlinear_arith)
            requires
                piece == before + 1,
        ;
        lemma_room(sizes, piece_length, before);
        let (file, position) = piece_start(sizes, piece_length, before);
        assert(piece_length <= sizes[file] && sizes[file] + piece_length <= usize::MAX);
        let end = position + piece_length;
        if end >= sizes[file] {
            assert(file_offset(sizes, file + 1) == file_offset(sizes, file) + sizes[file]);
            assert(file + 1 < sizes.len());
            assert(piece_length <= sizes[file + 1]);
        }
    }
}

/// A torrent whose files are no shorter than its pieces, and that has no more pieces
/// than begin within its files, can be laid out. Each of its pieces can be read, and
/// written in whatever length the files have room for, within the files.
pub proof fn lemma_every_piece_has_its_place(torrent: TorrentValue)
    requires
        0 < torrent.info.files.len() <= usize::MAX,
        0 < torrent.info.piece_length,
        forall|i: int|
            0 <= i < torrent.info.files.len() ==> torrent.info.piece_length <= (
            #[trigger] torrent.info.files[i]).1 && torrent.info.files[i].1
                + torrent.info.piece_length <= usize::MAX,
        file_offset(sizes_of(torrent.info.files), torrent.info.files.len() as int) <= u64::MAX,
        torrent.info.pieces.len() > 0 ==> (torrent.info.pieces.len() - 1)
            * torrent.info.piece_length < file_offset(
            sizes_of(torrent.info.files),
            torrent.info.files.len() as int,
        ),
    ensures
        torrent_ok(torrent),
        laid_out(fresh_transfer(torrent)),
        ({
            let state = fresh_transfer(torrent);
            let total = file_offset(state.sizes, state.sizes.len() as int);
            &&& forall|p: int|
                0 <= p < torrent.info.pieces.len() ==> #[trigger] piece_readable(state, p)
            &&& forall|p: int, length: int|
                0 <= p < torrent.info.pieces.len() && 0 <= length <= torrent.info.piece_length && p
                    * torrent.info.piece_length + length <= total ==> #[trigger] writable(
                    state.sizes,
                    state.pieces[p],
                    length,
                )
        }),
{
    let sizes = sizes_of(torrent.info.files);
    let unit = torrent.info.piece_length;
    let count = torrent.info.pieces.len();
    let end = sizes.len() as int;
    let total = file_offset(sizes, end);
    assert forall|i: int| 0 <= i < sizes.len() implies unit <= #[trigger] sizes[i] && sizes[i]
        + unit <= usize::MAX by {
        assert(sizes[i] == torrent.info.files[i].1);
    }
    assert(unit <= sizes[0]);
    assert forall|p: nat| p < count implies ({
        let (file, position) = #[trigger] piece_start(sizes, unit, p);
        0 <= file < sizes.len() && 0 <= position < sizes[file] && position + unit <= usize::MAX
            && file_offset(sizes, file) + position == p * unit && p * unit < total
    }) by {
        assert(p * unit <= (count - 1) * unit) by (nonlinear_arith)
            requires
                p <= count - 1,
                unit >= 0,
        ;
        lemma_room(sizes, unit, p);
        let (file, position) = piece_start(sizes, unit, p);
        assert(unit <= sizes[file] && sizes[file] + unit <= usize::MAX);
    }
    lemma_file_offset(sizes, end);
    let state = fresh_transfer(torrent);
    assert forall|p: int| 0 <= p < state.pieces.len() implies ({
        let (file, position) = piece_start(sizes, unit, p as nat);
        (#[trigger] state.pieces[p]).start_file == file && state.pieces[p].start_position
            == position
    }) by {
        let (file, position) = piece_start(sizes, unit, p as nat);
        assert(sizes[file] <= usize::MAX);
    }
    assert(laid_out(state));
    assert forall|p: int| 0 <= p < count implies #[trigger] piece_readable(state, p) by {
        let (file, position) = piece_start(sizes, unit, p as nat);
        assert(state.pieces[p].start_file == file);
        assert(sizes[file] <= usize::MAX);
        if p < count - 1 {
            let next = (p + 1) as nat;
            let start = piece_start(sizes, unit, next);
            assert(next * unit < total);
            assert(next * unit == p * unit + unit) by (nonlinear_arith)
                requires
                    next == p + 1,
            ;
            assert(file_offset(sizes, file + 1) == file_offset(sizes, file) + sizes[file]);
        }
    }
    assert forall|p: int, length: int|
        0 <= p < count && 0 <= length <= unit && p * unit + length
            <= total implies #[trigger] writable(state.sizes, state.pieces[p], length) by {
        let (file, position) = piece_start(sizes, unit, p as nat);
        assert(state.pieces[p].start_file == file);
        assert(sizes[file] <= usize::MAX);
        assert(file_offset(sizes, file + 1) == file_offset(sizes, file) + sizes[file]);
    }
}

/// A piece can be noted as complete where no more bytes come than are left and its files
/// have room for it.
pub proof fn lemma_which_pieces_can_be_added(state: TransferState, piece: usize, data: Seq<u8>)
    requires
        laid_out(state),
        piece < state.pieces.len(),
    ensures
        ({
            let start = state.pieces[piece as int];
            let size = state.sizes[start.start_file as int];
            &&& addable(state, piece as int, data) <==> data.len() <= state.left && writable(
                state.sizes,
                start,
                data.len() as int,
            )
            &&& start.start_position + data.len() <= size ==> writable(
                state.sizes,
                start,
                data.len() as int,
            )
            &&& takable(state, piece, data) <==> (sha1_of(data)
                == state.torrent.info.pieces[piece as int] ==> addable(state, piece as int, data))
        }),
{
    let start = state.pieces[piece as int];
    assert(state.sizes[start.start_file as int] <= usize::MAX);
    lemma_start_is_counted(
        state.sizes,
        state.piece_length,
        state.pieces.len(),
        piece as nat,
    );
}

/// All bytes one after the other.
pub open spec fn all_together(parts: Seq<Seq<u8>>) -> Seq<u8>
    decreases parts.len(),
{
    if parts.len() == 0 {
        Seq::empty()
    } else {
        all_together(parts.drop_last()) + parts.last()
    }
}

/// Data that is parted over stretches is the parts together, and each part is as long as
/// its stretch.
pub proof fn lemma_parts(spans: Seq<Span>, data: Seq<u8>)
    requires
        data.len() == spans_length(spans),
    ensures
        parts_of(spans, data).len() == spans.len(),
        all_together(parts_of(spans, data)) == data,
        forall|k: int|
            0 <= k < spans.len() ==> (#[trigger] parts_of(spans, data)[k]).len() == spans[k].length,
    decreases spans.len(),
{
    let parts = parts_of(spans, data);
    if spans.len() == 0 {
        assert(all_together(parts) =~= data);
    } else {
        let shorter = spans.drop_last();
        lemma_lengths_are_counted(shorter);
        let from = spans_length(shorter);
        let begin = data.take(from);
        lemma_parts(shorter, begin);
        assert forall|k: int| 0 <= k < shorter.len() implies #[trigger] parts_of(
            shorter,
            begin,
        )[k] == parts[k] by {
            assert(shorter.take(k) =~= spans.take(k));
            assert(shorter.take(k + 1) =~= spans.take(k + 1));
            lemma_first_lengths(shorter, k);
            lemma_first_lengths(shorter, k + 1);
            lemma_grows(shorter, k);
            assert(begin.subrange(
                spans_length(shorter.take(k)),
                spans_length(shorter.take(k + 1)),
            ) =~= data.subrange(spans_length(spans.take(k)), spans_length(spans.take(k + 1))));
        }
        assert(parts.drop_last() =~= parts_of(shorter, begin));
        let last = spans.len() - 1;
        assert(spans.take(last) =~= shorter);
        assert(spans.take(last + 1) =~= spans);
        assert(parts.last() =~= data.skip(from));
        assert(begin + data.skip(from) =~= data);
        assert forall|k: int| 0 <= k < spans.len() implies (#[trigger] parts[k]).len()
            == spans[k].length by {
            if k < last {
                assert(parts_of(shorter, begin)[k] == parts[k]);
                assert(shorter[k] == spans[k]);
            }
        }
    }
}

proof fn lemma_grows(spans: Seq<Span>, k: int)
    requires
        0 <= k < spans.len(),
    ensures
        spans_length(spans.take(k)) <= spans_length(spans.take(k + 1)),
{
    assert(spans.take(k + 1).drop_last() =~= spans.take(k));
}

proof fn lemma_first_lengths(spans: Seq<Span>, k: int)
    requires
        0 <= k <= spans.len(),
    ensures
        0 <= spans_length(spans.take(k)) <= spans_length(spans),
    decreases spans.len() - k,
{
    lemma_lengths_are_counted(spans.take(k));
    if k < spans.len() {
        lemma_grows(spans, k);
        lemma_first_lengths(spans, k + 1);
    } else {
        assert(spans.take(k) =~= spans);
    }
}

} // verus!
