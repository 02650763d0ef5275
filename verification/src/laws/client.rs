//! How the peers of the shared client behave, and what it notes of its pieces.
use vstd::prelude::*;

use crate::address::PeerAddress;
use crate::bits::{byte_count, lemma_byte_count, lemma_byte_of, packed};
use crate::client::peer::tcp::{
    OutcomeValue, PlanValue, TcpState, bitfield_bytes, handshake_bytes, message_ok, on_message,
    outgoing, plan_of, request_bytes, request_ok, status_sent,
};
use crate::client::peer::{
    PeerInfoValue, PeerStatus, RawMessage, frame_message, is_frame, new_peer_info, raw_label,
};
use crate::client::piece::{PieceState, emptied, new_piece, next_block};
use crate::client::{
    InfoState, active_peers, has_address, is_missing, left, missing_count, new_info, not_empty,
    trackers_of, with_checked, with_requested,
};
use crate::client::files::{
    PieceWalk, byte_place, joined, next_start, read_length_of,
};
use crate::engine::peer::message::{MessageValue, label, word_at};
use crate::hashing::sha1_of;
use crate::laws::engine::picked;
use crate::laws::files::file_offset;
use crate::laws::wire::{is_flag, lemma_big_endian, quad};
use crate::parser::TorrentValue;
use crate::wire::lemma_be_bytes_len;

verus! {

proof fn lemma_word(data: Seq<u8>, at: int)
    requires
        0 <= at,
        at + 4 <= data.len(),
    ensures
        word_at(data, at) == quad(data, at),
{
    let four = data.skip(at).take(4);
    lemma_big_endian(four, 0);
    assert(four[0] == data[at] && four[1] == data[at + 1] && four[2] == data[at + 2] && four[3]
        == data[at + 3]);
}

/// A message of a peer changes only what it speaks of: whether it chokes the client, is
/// interested, which pieces it has, or what came of the piece that it was asked for.
pub proof fn lemma_message_changes(
    state: TcpState,
    message: RawMessage,
    client: Seq<bool>,
    pieces: Seq<PieceState>,
)
    requires
        message_ok(state, message, client, pieces),
    ensures
        ({
            let step = on_message(state, message, client, pieces);
            let after = step.state;
            &&& message is Choke ==> after.status.client_choked
            &&& message is Unchoke ==> !after.status.client_choked
            &&& !(message is Choke) && !(message is Unchoke) ==> after.status.client_choked
                == state.status.client_choked
            &&& message is Interested ==> after.status.peer_interested
            &&& message is NotInterested ==> !after.status.peer_interested
            &&& !(message is Interested) && !(message is NotInterested)
                ==> after.status.peer_interested == state.status.peer_interested
            &&& after.status.peer_choked == state.status.peer_choked
            &&& after.status.client_interested == state.status.client_interested
            &&& after.last_message_time == state.last_message_time
            &&& message matches RawMessage::Have(data) ==> {
                &&& after.bitfield_peer.len() == state.bitfield_peer.len()
                &&& after.bitfield_peer[quad(data, 0)]
                &&& forall|k: int|
                    0 <= k < state.bitfield_peer.len() && k != quad(data, 0)
                        ==> #[trigger] after.bitfield_peer[k] == state.bitfield_peer[k]
            }
            &&& message matches RawMessage::Bitfield(data) ==> {
                &&& after.bitfield_peer.len() == 8 * data.len()
                &&& forall|k: int|
                    0 <= k < after.bitfield_peer.len() ==> is_flag(
                        data[k / 8],
                        k % 8,
                        #[trigger] after.bitfield_peer[k],
                    )
            }
            &&& !(message is Have) && !(message is Bitfield) ==> after.bitfield_peer
                == state.bitfield_peer
            &&& !(message is Piece) ==> {
                &&& after.requested == state.requested
                &&& after.waiting_for_response == state.waiting_for_response
                &&& step.pieces == pieces
                &&& !(step.outcome is Write) && !(step.outcome is Drop)
            }
            &&& !(message is Request) ==> !(step.outcome is Serve)
        }),
{
    match message {
        RawMessage::Have(data) => lemma_word(data, 0),
        _ => {},
    }
}

/// A peer that asks for a block is given just that block of just that piece, where the
/// client has the piece and is not choked.
pub proof fn lemma_request_is_served(
    state: TcpState,
    data: Seq<u8>,
    client: Seq<bool>,
    pieces: Seq<PieceState>,
)
    requires
        message_ok(state, RawMessage::Request(data), client, pieces),
    ensures
        ({
            let step = on_message(state, RawMessage::Request(data), client, pieces);
            let piece = quad(data, 0);
            if piece < pieces.len() && client[piece] && !state.status.client_choked {
                step.outcome == OutcomeValue::Serve {
                    piece: piece as u32,
                    file: pieces[piece].start_file,
                    position: pieces[piece].start_position,
                    block_offset: quad(data, 4) as usize,
                    block_length: quad(data, 8) as usize,
                }
            } else {
                step.outcome is Keep
            }
        }),
{
    lemma_word(data, 0);
    lemma_word(data, 4);
    lemma_word(data, 8);
}

/// A request that a client sends says to the one that reads it which piece, which offset
/// and which length are meant.
pub proof fn lemma_request_says_what_is_meant(piece: u32, offset: u32, length: u32)
    ensures
        ({
            let bytes = request_bytes(piece, (offset, length));
            &&& bytes.len() == 17
            &&& quad(bytes, 0) == 13
            &&& bytes[4] == 6
            &&& frame_message(bytes) matches Some(RawMessage::Request(body)) && {
                &&& body.len() == 12
                &&& quad(body, 0) == piece
                &&& quad(body, 4) == offset
                &&& quad(body, 8) == length
            }
        }),
{
    broadcast use lemma_be_bytes_len;

    let bytes = request_bytes(piece, (offset, length));
    lemma_big_endian(bytes.take(4), 13);
    lemma_big_endian(Seq::empty(), piece as nat);
    lemma_big_endian(Seq::empty(), offset as nat);
    lemma_big_endian(Seq::empty(), length as nat);
    assert(quad(bytes.take(4), 0) == quad(bytes, 0));
    let body = bytes.skip(5);
    assert(quad(body, 0) == quad(bytes, 5));
    assert(quad(body, 4) == quad(bytes, 9));
    assert(quad(body, 8) == quad(bytes, 13));
}

/// The first byte behind the length says what a message is, and the rest belongs to it.
pub proof fn lemma_message_by_its_kind(bytes: Seq<u8>)
    requires
        bytes.len() >= 4,
        quad(bytes, 0) > 0 ==> bytes.len() >= 5,
    ensures
        match frame_message(bytes) {
            Some(RawMessage::KeepAlive) => quad(bytes, 0) == 0,
            Some(RawMessage::Choke) => quad(bytes, 0) > 0 && bytes[4] == 0,
            Some(RawMessage::Unchoke) => quad(bytes, 0) > 0 && bytes[4] == 1,
            Some(RawMessage::Interested) => quad(bytes, 0) > 0 && bytes[4] == 2,
            Some(RawMessage::NotInterested) => quad(bytes, 0) > 0 && bytes[4] == 3,
            Some(RawMessage::Have(body)) => quad(bytes, 0) > 0 && bytes[4] == 4 && body
                == bytes.skip(5),
            Some(RawMessage::Bitfield(body)) => quad(bytes, 0) > 0 && bytes[4] == 5 && body
                == bytes.skip(5),
            Some(RawMessage::Request(body)) => quad(bytes, 0) > 0 && bytes[4] == 6 && body
                == bytes.skip(5),
            Some(RawMessage::Piece(body)) => quad(bytes, 0) > 0 && bytes[4] == 7 && body
                == bytes.skip(5),
            Some(RawMessage::Cancel(body)) => quad(bytes, 0) > 0 && bytes[4] == 8 && body
                == bytes.skip(5),
            None => quad(bytes, 0) > 0 && bytes[4] > 8,
        },
{
    lemma_big_endian(bytes.take(4), 0);
    assert(quad(bytes.take(4), 0) == quad(bytes, 0));
}

/// A block is put behind what came of the piece that was asked for. When the piece has
/// as many bytes as it should, it is written to its place where its digest is right, and
/// fetched anew where it is not. A block of any other piece drops the peer.
pub proof fn lemma_block_is_taken(
    state: TcpState,
    data: Seq<u8>,
    client: Seq<bool>,
    pieces: Seq<PieceState>,
)
    requires
        message_ok(state, RawMessage::Piece(data), client, pieces),
    ensures
        ({
            let step = on_message(state, RawMessage::Piece(data), client, pieces);
            let idx = quad(data, 0);
            let all = pieces[idx].piece_data + data.skip(8);
            &&& state.requested != Some(idx as usize) ==> step.outcome is Drop && step.state
                == state && step.pieces == pieces
            &&& state.requested == Some(idx as usize) ==> !step.state.waiting_for_response
            &&& state.requested == Some(idx as usize) && idx >= pieces.len() ==> step.pieces
                == pieces && step.state.requested is None && step.outcome is Keep
            &&& state.requested == Some(idx as usize) && idx < pieces.len() ==> {
                let before = pieces[idx];
                let after = step.pieces[idx];
                &&& step.pieces.len() == pieces.len()
                &&& forall|k: int|
                    0 <= k < pieces.len() && k != idx ==> #[trigger] step.pieces[k] == pieces[k]
                &&& after.piece_len == before.piece_len && after.piece_hash == before.piece_hash
                &&& after.start_file == before.start_file && after.start_position
                    == before.start_position
                &&& if all.len() < before.piece_len {
                    &&& after.piece_data == all
                    &&& after.finished == before.finished && after.requested == before.requested
                    &&& step.state.requested == state.requested
                    &&& step.outcome is Keep
                } else if sha1_of(all) == before.piece_hash {
                    &&& after.finished && !after.requested
                    &&& step.state.requested is None
                    &&& step.outcome == OutcomeValue::Write {
                        file: before.start_file,
                        position: before.start_position,
                        data: all,
                    }
                } else {
                    &&& after.piece_data.len() == 0
                    &&& !after.finished && !after.requested
                    &&& step.state.requested is None
                    &&& step.outcome is Keep
                }
            }
        }),
{
    lemma_word(data, 0);
}

/// A piece is fetched block after block: as long as the blocks come as they are asked
/// for, what has come is the beginning of the piece, the next block is the one behind it,
/// at most 16384 bytes long and no longer than the piece, and with the last block the
/// piece is written as it is.
pub proof fn lemma_piece_is_fetched(
    state: TcpState,
    idx: u32,
    content: Seq<u8>,
    client: Seq<bool>,
    pieces: Seq<PieceState>,
    data: Seq<u8>,
)
    requires
        idx < pieces.len(),
        content.len() <= u32::MAX,
        pieces[idx as int].piece_len == content.len(),
        pieces[idx as int].piece_hash == sha1_of(content),
        pieces[idx as int].piece_data.len() < content.len(),
        pieces[idx as int].piece_data == content.take(
            pieces[idx as int].piece_data.len() as int,
        ),
        state.requested == Some(idx as usize),
        data.len() >= 8,
        message_ok(state, RawMessage::Piece(data), client, pieces),
        quad(data, 0) == idx,
        ({
            let (offset, length) = next_block(pieces[idx as int]);
            data.skip(8) == content.subrange(offset as int, offset + length)
        }),
    ensures
        ({
            let had = pieces[idx as int].piece_data.len();
            let (offset, length) = next_block(pieces[idx as int]);
            let step = on_message(state, RawMessage::Piece(data), client, pieces);
            let now = step.pieces[idx as int].piece_data;
            &&& offset == had
            &&& 0 < length <= 16384
            &&& length == 16384 || offset + length == content.len()
            &&& now == content.take(offset + length)
            &&& offset + length < content.len() ==> step.outcome is Keep && step.state.requested
                == state.requested
            &&& offset + length == content.len() ==> step.outcome == OutcomeValue::Write {
                file: pieces[idx as int].start_file,
                position: pieces[idx as int].start_position,
                data: content,
            }
        }),
{
    lemma_block_is_taken(state, data, client, pieces);
    let (offset, length) = next_block(pieces[idx as int]);
    let all = pieces[idx as int].piece_data + data.skip(8);
    assert(all =~= content.take(offset + length));
    if offset + length == content.len() {
        assert(all =~= content);
    }
}

/// A piece is asked for where the peer has it and no answer is waited for: the peer is
/// first told that it is not choked and that the client is interested, each where it was
/// not told so, and then asked for the next block of that piece.
pub proof fn lemma_how_a_piece_is_asked_for(
    state: TcpState,
    piece: u32,
    pieces: Seq<PieceState>,
)
    requires
        piece < state.bitfield_peer.len(),
    ensures
        ({
            let told = (if state.status.peer_choked {
                seq![RawMessage::Unchoke]
            } else {
                seq![]
            }) + (if state.status.client_interested {
                seq![]
            } else {
                seq![RawMessage::Interested]
            });
            let plan = plan_of(state, piece as usize, pieces);
            &&& !state.bitfield_peer[piece as int] ==> plan is Unavailable
            &&& state.bitfield_peer[piece as int] && state.waiting_for_response ==> plan is Waiting
            &&& state.bitfield_peer[piece as int] && !state.waiting_for_response && piece
                >= pieces.len() ==> plan == PlanValue::NoPiece(told)
            &&& state.bitfield_peer[piece as int] && !state.waiting_for_response && piece
                < pieces.len() ==> plan == PlanValue::Ask(
                told,
                RawMessage::Request(
                    request_bytes(
                        piece,
                        (
                            pieces[piece as int].piece_data.len() as u32,
                            next_block(pieces[piece as int]).1,
                        ),
                    ),
                ),
            )
        }),
{
    let told = (if state.status.peer_choked {
        seq![RawMessage::Unchoke]
    } else {
        seq![]
    }) + (if state.status.client_interested {
        seq![]
    } else {
        seq![RawMessage::Interested]
    });
    assert(crate::client::peer::tcp::before_request(state.status) =~= told);
    assert((piece as usize) as u32 == piece);
}

/// What was sent is noted: choking and unchoking the peer, being interested or not. A
/// peer that is only kept alive counts as choked. Nothing else changes.
pub proof fn lemma_sent_message_is_noted(status: PeerStatus, message: RawMessage)
    ensures
        ({
            let after = status_sent(status, message);
            &&& message is Unchoke ==> !after.peer_choked
            &&& message is Choke || message is KeepAlive ==> after.peer_choked
            &&& message is Interested ==> after.client_interested
            &&& message is NotInterested ==> !after.client_interested
            &&& !(message is Unchoke) && !(message is Choke) && !(message is KeepAlive)
                ==> after.peer_choked == status.peer_choked
            &&& !(message is Interested) && !(message is NotInterested) ==> after.client_interested
                == status.client_interested
            &&& after.client_choked == status.client_choked
            &&& after.peer_interested == status.peer_interested
        }),
{
}

/// What is sent without a body is read back as what it is.
pub proof fn lemma_short_messages(message: RawMessage)
    requires
        message is Choke || message is Unchoke || message is Interested || message is NotInterested,
    ensures
        outgoing(message) matches Some(bytes) && {
            &&& bytes.len() == 5
            &&& quad(bytes, 0) == 1
            &&& frame_message(bytes) == Some(message)
        },
{
    let bytes = outgoing(message).unwrap();
    lemma_big_endian(bytes.take(4), 0);
    assert(quad(bytes.take(4), 0) == quad(bytes, 0));
}

/// A connection begins with 68 bytes: 19 and the name of the protocol, eight bytes 0,
/// the digest of the torrent, and twenty characters `e` for the client.
pub proof fn lemma_handshake(info_hash: Seq<u8>)
    requires
        info_hash.len() == 20,
    ensures
        ({
            let bytes = handshake_bytes(info_hash);
            &&& bytes.len() == 68
            &&& bytes[0] == 19
            &&& bytes.subrange(1, 20) == seq![
                66u8,
                105,
                116,
                84,
                111,
                114,
                114,
                101,
                110,
                116,
                32,
                112,
                114,
                111,
                116,
                111,
                99,
                111,
                108,
            ]
            &&& forall|i: int| 20 <= i < 28 ==> #[trigger] bytes[i] == 0
            &&& bytes.subrange(28, 48) == info_hash
            &&& forall|i: int| 48 <= i < 68 ==> #[trigger] bytes[i] == 101
        }),
{
    let bytes = handshake_bytes(info_hash);
    assert(bytes.len() == 68);
    assert(bytes.subrange(1, 20) =~= seq![
        66u8,
        105,
        116,
        84,
        111,
        114,
        114,
        101,
        110,
        116,
        32,
        112,
        114,
        111,
        116,
        111,
        99,
        111,
        108,
    ]);
    assert(bytes.subrange(28, 48) =~= info_hash);
}

/// The message that follows the handshakes says of each piece, by a bit, whether it is
/// there.
pub proof fn lemma_bitfield_says_what_is_there(pieces: Seq<bool>)
    requires
        pieces.len() <= 16777216,
    ensures
        ({
            let bytes = bitfield_bytes(pieces);
            &&& bytes.len() == 5 + (pieces.len() + 7) / 8
            &&& quad(bytes, 0) == bytes.len() - 4
            &&& bytes[4] == 5
            &&& forall|i: int|
                0 <= i < pieces.len() ==> is_flag(bytes[5 + i / 8], i % 8, #[trigger] pieces[i])
        }),
{
    broadcast use lemma_be_bytes_len;

    let bytes = bitfield_bytes(pieces);
    let data = packed(pieces, byte_count(pieces.len()));
    lemma_byte_count(pieces.len());
    lemma_big_endian(Seq::empty(), (data.len() + 1) as nat);
    assert forall|i: int| 0 <= i < pieces.len() implies is_flag(
        bytes[5 + i / 8],
        i % 8,
        #[trigger] pieces[i],
    ) by {
        lemma_byte_of(pieces, 8 * (i / 8), i % 8);
        assert(bytes[5 + i / 8] == data[i / 8]);
    }
}

/// Different kinds of messages are called by different names, which are the same in both
/// clients.
pub proof fn lemma_names_of_messages(body: Seq<u8>, piece: u32, a: u32, b: u32, flags: Seq<bool>)
    ensures
        raw_label(RawMessage::KeepAlive) == "Keep Alive"@,
        raw_label(RawMessage::Choke) == "Choke"@,
        raw_label(RawMessage::Unchoke) == "Unchoke"@,
        raw_label(RawMessage::Interested) == "Interested"@,
        raw_label(RawMessage::NotInterested) == "Not Interested"@,
        raw_label(RawMessage::Have(body)) == "Have"@,
        raw_label(RawMessage::Bitfield(body)) == "Bitfield"@,
        raw_label(RawMessage::Request(body)) == "Request"@,
        raw_label(RawMessage::Piece(body)) == "Piece"@,
        raw_label(RawMessage::Cancel(body)) == "Cancel"@,
        label(MessageValue::KeepAlive) == "Keep Alive"@,
        label(MessageValue::Choke) == "Choke"@,
        label(MessageValue::Unchoke) == "Unchoke"@,
        label(MessageValue::Interested) == "Interested"@,
        label(MessageValue::NotInterested) == "Not Interested"@,
        label(MessageValue::Have { piece }) == "Have"@,
        label(MessageValue::Bitfield { pieces: flags }) == "Bitfield"@,
        label(MessageValue::Request { piece_idx: piece, block_offset: a, block_length: b })
            == "Request"@,
        label(MessageValue::Piece { piece_idx: piece, block_offset: a, block_data: body })
            == "Piece"@,
        label(MessageValue::Cancel { piece_idx: piece, block_offset: a, block_length: b })
            == "Cancel"@,
{
}

/// A piece is new, and becomes so again, with nothing of it there and nothing asked for.
pub proof fn lemma_new_piece(piece: PieceState, finished: bool)
    ensures
        ({
            let made = new_piece(
                piece.piece_len,
                piece.piece_hash,
                piece.start_file,
                piece.start_position,
                finished,
            );
            &&& made.piece_data.len() == 0 && !made.requested && made.finished == finished
            &&& made.piece_len == piece.piece_len && made.piece_hash == piece.piece_hash
            &&& made.start_file == piece.start_file && made.start_position == piece.start_position
            &&& !emptied(piece).finished && !emptied(piece).requested && emptied(
                piece,
            ).piece_data.len() == 0
        }),
{
}

/// A piece is read from its file up to its own end or that of the file, whichever comes
/// first, where it begins in the file.
pub proof fn lemma_how_much_is_read(filesize: u64, offset: u64, piece_length: u64)
    requires
        filesize <= usize::MAX,
        piece_length <= usize::MAX,
        offset + piece_length <= u64::MAX,
    ensures
        match read_length_of(filesize, offset, piece_length) {
            Some(length) => {
                &&& offset + length <= filesize
                &&& length == piece_length || (length < piece_length && offset + length == filesize)
            },
            None => offset > filesize,
        },
{
}

/// The bytes of a piece out of two files are those of the first one and then those of
/// the second one, and zeros where both are too short.
pub proof fn lemma_two_files_are_joined(first: Seq<u8>, second: Seq<u8>, piece_length: int)
    requires
        first.len() <= piece_length,
    ensures
        ({
            let piece = joined(first, second, piece_length);
            let short = piece_length - first.len();
            &&& piece.len() == piece_length
            &&& piece.take(first.len() as int) == first
            &&& second.len() >= short ==> piece.skip(first.len() as int) == second.take(short)
            &&& forall|i: int|
                first.len() + second.len() <= i < piece_length ==> #[trigger] piece[i] == 0
        }),
{
    let piece = joined(first, second, piece_length);
    let short = piece_length - first.len();
    assert(piece.take(first.len() as int) =~= first);
    if second.len() >= short {
        assert(piece.skip(first.len() as int) =~= second.take(short));
    }
}

/// Counted through all files, a walk from piece to piece goes on by the length of the
/// piece, and stays within the file where the piece does not reach its end.
pub proof fn lemma_walk_through_the_files(sizes: Seq<u64>, file: int, offset: int, length: int)
    requires
        0 <= file < sizes.len(),
        0 <= offset,
        0 <= length,
    ensures
        ({
            let (next, start) = next_start(file, offset, length, sizes[file] as int);
            &&& file_offset(sizes, next) + start == file_offset(sizes, file) + offset + length
            &&& 0 <= start
            &&& next == file ==> start < sizes[file]
            &&& next == file || next == file + 1
        }),
{
}

/// The bytes of a piece are written one behind the other, and the first one that the
/// file has no room for to the beginning of the next file.
pub proof fn lemma_bytes_follow(filesize: u64, file: usize, position: usize)
    ensures
        position < filesize ==> byte_place(filesize, file, position) == (
            file as int,
            position + 1,
        ),
        position >= filesize ==> byte_place(filesize, file, position) == (file + 1, 1int),
{
}

/// A piece that was looked for is noted behind the others, at its place, and is there
/// just where its bytes have the digest that the torrent names for it.
pub proof fn lemma_checked_piece_is_noted(state: InfoState, walk: PieceWalk, data: Seq<u8>)
    requires
        walk.piece < state.torrent.info.pieces.len() <= u32::MAX,
        state.bitfield_client.len() == state.torrent.info.pieces.len(),
        state.pieces.len() == walk.piece,
        data.len() <= usize::MAX,
    ensures
        ({
            let after = with_checked(state, walk, data);
            let there = sha1_of(data) == state.torrent.info.pieces[walk.piece as int];
            let piece = after.pieces[walk.piece as int];
            &&& after.pieces.len() == state.pieces.len() + 1
            &&& forall|k: int| 0 <= k < state.pieces.len() ==> #[trigger] after.pieces[k]
                == state.pieces[k]
            &&& piece.finished == there
            &&& piece.piece_len == data.len()
            &&& piece.piece_hash == state.torrent.info.pieces[walk.piece as int]
            &&& piece.start_file == walk.file && piece.start_position == walk.offset
            &&& piece.piece_data.len() == 0 && !piece.requested
            &&& after.bitfield_client.len() == state.bitfield_client.len()
            &&& after.bitfield_client[walk.piece as int] == (there
                || state.bitfield_client[walk.piece as int])
            &&& forall|k: int|
                0 <= k < state.bitfield_client.len() && k != walk.piece
                    ==> #[trigger] after.bitfield_client[k] == state.bitfield_client[k]
            &&& after.peers == state.peers && after.torrent == state.torrent
            &&& after.piece_length == state.piece_length
            &&& after.total_uploaded == state.total_uploaded
            &&& after.total_downloaded == state.total_downloaded
        }),
{
    assert(walk.piece as u32 as int == walk.piece as int);
}

/// What is known of a torrent at first: the length of its pieces, and that none of them
/// is there.
pub proof fn lemma_nothing_is_there_at_first(torrent: TorrentValue)
    requires
        torrent.info.piece_length <= usize::MAX,
    ensures
        ({
            let state = new_info(torrent);
            &&& state.torrent == torrent
            &&& state.piece_length == torrent.info.piece_length
            &&& state.total_uploaded == 0 && state.total_downloaded == 0
            &&& state.pieces.len() == 0 && state.peers.len() == 0
            &&& state.bitfield_client.len() == torrent.info.pieces.len()
            &&& forall|i: int|
                0 <= i < state.bitfield_client.len() ==> !#[trigger] state.bitfield_client[i]
        }),
{
}

/// Asking for a piece, or letting go of it, is noted of that piece and of nothing else.
pub proof fn lemma_asked_for_piece_is_noted(
    pieces: Seq<PieceState>,
    idx: usize,
    requested: bool,
)
    ensures
        ({
            let after = with_requested(pieces, idx, requested);
            &&& after.len() == pieces.len()
            &&& forall|k: int|
                0 <= k < pieces.len() && k != idx ==> #[trigger] after[k] == pieces[k]
            &&& idx < pieces.len() ==> {
                let piece = after[idx as int];
                &&& piece.requested == requested
                &&& piece.finished == pieces[idx as int].finished
                &&& piece.piece_data == pieces[idx as int].piece_data
                &&& piece.piece_hash == pieces[idx as int].piece_hash
                &&& piece.piece_len == pieces[idx as int].piece_len
                &&& piece.start_file == pieces[idx as int].start_file
                &&& piece.start_position == pieces[idx as int].start_position
            }
        }),
{
}

/// The missing pieces are those that are neither complete nor asked for, each counted
/// once.
pub proof fn lemma_missing_pieces_are_counted(pieces: Seq<PieceState>)
    ensures
        exists|places: Seq<int>|
            places.len() == missing_count(pieces) && #[trigger] places.no_duplicates() && forall|
                i: int,
            | #[trigger]
                places.contains(i) <==> 0 <= i < pieces.len() && !pieces[i].finished
                    && !pieces[i].requested,
    decreases pieces.len(),
{
    let places = lemma_missing_places(pieces);
    assert(places.no_duplicates());
}

proof fn lemma_missing_places(pieces: Seq<PieceState>) -> (places: Seq<int>)
    ensures
        places.len() == missing_count(pieces),
        places.no_duplicates(),
        forall|i: int| #[trigger]
            places.contains(i) <==> 0 <= i < pieces.len() && !pieces[i].finished
                && !pieces[i].requested,
    decreases pieces.len(),
{
    if pieces.len() == 0 {
        Seq::empty()
    } else {
        let before = lemma_missing_places(pieces.drop_last());
        let last = pieces.len() - 1;
        let places = if is_missing(pieces.last()) {
            before.push(last)
        } else {
            before
        };
        assert forall|i: int| #[trigger] places.contains(i) <==> 0 <= i < pieces.len()
            && !pieces[i].finished && !pieces[i].requested by {
            if places.contains(i) {
                let k = choose|k: int| 0 <= k < places.len() && places[k] == i;
                if k < before.len() {
                    assert(before[k] == i);
                    assert(before.contains(i));
                }
            }
            if 0 <= i < last && !pieces[i].finished && !pieces[i].requested {
                assert(pieces.drop_last()[i] == pieces[i]);
                assert(before.contains(i));
                let k = choose|k: int| 0 <= k < before.len() && before[k] == i;
                assert(places[k] == i);
            }
            if i == last && is_missing(pieces.last()) {
                assert(places[before.len() as int] == i);
            }
        }
        assert(!before.contains(last));
        assert(places.no_duplicates()) by {
            assert forall|a: int, b: int| 0 <= a < b < places.len() implies places[a]
                != places[b] by {
                if b == before.len() {
                    assert(before.contains(before[a]));
                } else {
                    assert(before[a] != before[b]);
                }
            }
        }
        places
    }
}

proof fn lemma_not_empty(list: Seq<Seq<char>>) -> (from: Seq<int>)
    ensures
        picked(list, not_empty(list), from),
        forall|i: int| 0 <= i < list.len() ==> (from.contains(i) <==> (#[trigger] list[i]).len() > 0),
    decreases list.len(),
{
    if list.len() == 0 {
        Seq::empty()
    } else {
        let before = lemma_not_empty(list.drop_last());
        let last = list.len() - 1;
        let from = if list.last().len() > 0 {
            before.push(last)
        } else {
            before
        };
        assert forall|i: int| 0 <= i < list.len() implies (from.contains(i) <==> (
        #[trigger] list[i]).len() > 0) by {
            if i < last {
                assert(list.drop_last()[i] == list[i]);
            } else if list.last().len() > 0 {
                assert(from[before.len() as int] == last);
            }
            if before.contains(i) {
                let k = choose|k: int| 0 <= k < before.len() && before[k] == i;
                assert(from[k] == i);
            }
            if from.contains(i) {
                let k = choose|k: int| 0 <= k < from.len() && from[k] == i;
                if k < before.len() {
                    assert(before[k] == i);
                }
            }
        }
        from
    }
}

/// The trackers are the one of the torrent, and then those of its list that are not
/// empty, in order.
pub proof fn lemma_trackers(torrent: TorrentValue)
    ensures
        trackers_of(torrent)[0] == torrent.announce,
        exists|from: Seq<int>| #[trigger]
            picked(torrent.announce_list, trackers_of(torrent).skip(1), from) && forall|i: int|
                0 <= i < torrent.announce_list.len() ==> (from.contains(i) <==> (
                #[trigger] torrent.announce_list[i]).len() > 0),
{
    let from = lemma_not_empty(torrent.announce_list);
    assert(trackers_of(torrent).skip(1) =~= not_empty(torrent.announce_list));
    assert(picked(torrent.announce_list, trackers_of(torrent).skip(1), from));
}

/// A peer that has left is no longer active, and stays in the list; no other peer
/// changes.
pub proof fn lemma_peer_that_left(peers: Seq<PeerInfoValue>, address: PeerAddress, i: int)
    requires
        0 <= i < peers.len(),
    ensures
        left(peers, address).len() == peers.len(),
        peers[i].address != address ==> left(peers, address)[i] == peers[i],
        peers[i].address == address ==> {
            let after = left(peers, address)[i];
            &&& !after.active
            &&& after.address == address
            &&& after.uploaded_total == peers[i].uploaded_total
            &&& after.downloaded_total == peers[i].downloaded_total
            &&& after.last_message_sent == peers[i].last_message_sent
            &&& after.last_message_received == peers[i].last_message_received
            &&& after.start_time == peers[i].start_time
        },
{
}

/// Dropping the peers that have left keeps those that are active, and no other, unchanged
/// and in order.
pub proof fn lemma_active_peers_are_kept(peers: Seq<PeerInfoValue>)
    ensures
        exists|from: Seq<int>| #[trigger]
            picked(peers, active_peers(peers), from) && forall|i: int|
                0 <= i < peers.len() ==> (from.contains(i) <==> (#[trigger] peers[i]).active),
{
    let from = lemma_active_places(peers);
    assert(picked(peers, active_peers(peers), from));
}

proof fn lemma_active_places(peers: Seq<PeerInfoValue>) -> (from: Seq<int>)
    ensures
        picked(peers, active_peers(peers), from),
        forall|i: int| 0 <= i < peers.len() ==> (from.contains(i) <==> (#[trigger] peers[i]).active),
    decreases peers.len(),
{
    if peers.len() == 0 {
        Seq::empty()
    } else {
        let before = lemma_active_places(peers.drop_last());
        let last = peers.len() - 1;
        let from = if peers.last().active {
            before.push(last)
        } else {
            before
        };
        assert forall|i: int| 0 <= i < peers.len() implies (from.contains(i) <==> (
        #[trigger] peers[i]).active) by {
            if i < last {
                assert(peers.drop_last()[i] == peers[i]);
            } else if peers.last().active {
                assert(from[before.len() as int] == last);
            }
            if before.contains(i) {
                let k = choose|k: int| 0 <= k < before.len() && before[k] == i;
                assert(from[k] == i);
            }
            if from.contains(i) {
                let k = choose|k: int| 0 <= k < from.len() && from[k] == i;
                if k < before.len() {
                    assert(before[k] == i);
                }
            }
        }
        from
    }
}

/// A peer is new with nothing sent or received, and active; it is known by its address.
pub proof fn lemma_new_peer(peers: Seq<PeerInfoValue>, address: PeerAddress, now: u128)
    ensures
        ({
            let peer = new_peer_info(address, now);
            &&& peer.active && peer.address == address && peer.start_time == now
            &&& peer.uploaded_total == 0 && peer.downloaded_total == 0
            &&& peer.last_message_sent is None && peer.last_message_received is None
            &&& has_address(peers.push(peer), address)
        }),
        has_address(peers, address) <==> exists|i: int|
            0 <= i < peers.len() && (#[trigger] peers[i]).address == address,
{
    let more = peers.push(new_peer_info(address, now));
    assert(more[peers.len() as int].address == address);
}

/// A message can be taken where it has its numbers and speaks of pieces that there are;
/// a block also only where its bytes can be counted.
pub proof fn lemma_what_can_be_taken(
    state: TcpState,
    message: RawMessage,
    client: Seq<bool>,
    pieces: Seq<PieceState>,
)
    ensures
        message_ok(state, message, client, pieces) <==> match message {
            RawMessage::Have(data) => data.len() >= 4 && quad(data, 0) < state.bitfield_peer.len(),
            RawMessage::Request(data) => data.len() >= 12 && quad(data, 0) < client.len(),
            RawMessage::Piece(data) => data.len() >= 8 && (quad(data, 0) < pieces.len()
                ==> pieces[quad(data, 0)].piece_data.len() + data.len() - 8
                <= 0x1fff_ffff_ffff_ffff),
            RawMessage::Cancel(data) => data.len() >= 12,
            _ => true,
        },
{
    match message {
        RawMessage::Have(data) => {
            if data.len() >= 4 {
                lemma_word(data, 0);
            }
        },
        RawMessage::Request(data) => {
            if data.len() >= 12 {
                lemma_word(data, 0);
            }
        },
        RawMessage::Piece(data) => {
            if data.len() >= 8 {
                lemma_word(data, 0);
            }
        },
        _ => {},
    }
}

/// A piece can be asked for where the peer says whether it has it, and where no more of
/// it came than it has.
pub proof fn lemma_what_can_be_asked_for(state: TcpState, piece: u32, pieces: Seq<PieceState>)
    ensures
        request_ok(state, piece as usize, pieces) <==> piece < state.bitfield_peer.len() && (piece
            < pieces.len() ==> pieces[piece as int].piece_data.len()
            <= pieces[piece as int].piece_len),
{
    assert((piece as usize) as u32 == piece);
}

/// Bytes hold a message where they hold its length and, unless that is zero, its kind.
pub proof fn lemma_what_is_a_message(bytes: Seq<u8>)
    ensures
        is_frame(bytes) <==> bytes.len() >= 5 || (bytes.len() == 4 && quad(bytes, 0) == 0),
{
    if bytes.len() >= 4 {
        lemma_big_endian(bytes.take(4), 0);
        assert(quad(bytes.take(4), 0) == quad(bytes, 0));
    }
}

} // verus!
