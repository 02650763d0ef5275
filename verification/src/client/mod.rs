//! A client in which all peers share what is known of the torrent.
use vstd::prelude::*;
use vstd::string::*;

use crate::address::PeerAddress;
use crate::client::files::{PieceWalk, next_start};
use crate::client::peer::tcp::{
    PeerOutcome, RequestPlan, TcpPeer, message_ok, on_message, piece_states, pieces_ok,
    plan_of, request_ok,
};
use crate::client::peer::{Bitfield, Message, PeerInfo, PeerInfoValue, new_peer_info};
use crate::client::piece::{Piece, PieceState, new_piece};
use crate::client::random::random_below;
use crate::hashing::{MAX_HASHED_LEN, sha1_digest, sha1_of};
use crate::parser::{ParsedTorrent, TorrentValue};
use crate::scan::{contents, copy_bytes, same_bytes};
use crate::text::texts;

pub mod direct;
pub mod files;
pub mod peer;
pub mod piece;
pub mod random;
pub mod tracker;

verus! {

/// What is known of a torrent.
#[verifier::ext_equal]
pub struct InfoState {
    pub torrent: TorrentValue,
    pub piece_length: usize,
    pub total_uploaded: usize,
    pub total_downloaded: usize,
    pub pieces: Seq<PieceState>,
    pub peers: Seq<PeerInfoValue>,
    pub bitfield_client: Seq<bool>,
}

/// The peers as they are known.
pub open spec fn peer_values(peers: Seq<PeerInfo>) -> Seq<PeerInfoValue> {
    peers.map_values(|p: PeerInfo| p@)
}

/// A torrent of which nothing was read.
pub open spec fn new_info(torrent: TorrentValue) -> InfoState {
    InfoState {
        torrent,
        piece_length: torrent.info.piece_length as usize,
        total_uploaded: 0,
        total_downloaded: 0,
        pieces: Seq::empty(),
        peers: Seq::empty(),
        bitfield_client: Seq::new(torrent.info.pieces.len(), |i: int| false),
    }
}

/// What holds of a torrent at any time: there is a flag for each digest, there are
/// no more pieces than digests, and there can be room for each piece.
pub open spec fn info_state_ok(state: InfoState) -> bool {
    &&& state.bitfield_client.len() == state.torrent.info.pieces.len()
    &&& state.pieces.len() <= state.torrent.info.pieces.len()
    &&& pieces_ok(state.pieces)
}

/// The piece is neither complete nor asked for.
pub open spec fn is_missing(piece: PieceState) -> bool {
    !piece.requested && !piece.finished
}

/// How many pieces are neither complete nor asked for.
pub open spec fn missing_count(pieces: Seq<PieceState>) -> nat
    decreases pieces.len(),
{
    if pieces.len() == 0 {
        0
    } else {
        missing_count(pieces.drop_last()) + (if is_missing(pieces.last()) {
            1nat
        } else {
            0nat
        })
    }
}

/// The pieces with one noted as asked for or not, where there is such a piece.
pub open spec fn with_requested(pieces: Seq<PieceState>, idx: usize, requested: bool) -> Seq<
    PieceState,
> {
    if idx < pieces.len() {
        pieces.update(idx as int, PieceState { requested, ..pieces[idx as int] })
    } else {
        pieces
    }
}

/// The texts that are not empty.
pub open spec fn not_empty(list: Seq<Seq<char>>) -> Seq<Seq<char>>
    decreases list.len(),
{
    if list.len() == 0 {
        Seq::empty()
    } else {
        let before = not_empty(list.drop_last());
        if list.last().len() > 0 {
            before.push(list.last())
        } else {
            before
        }
    }
}

/// The trackers of a torrent: the one of the metainfo, and those of its list that
/// are not empty.
pub open spec fn trackers_of(torrent: TorrentValue) -> Seq<Seq<char>> {
    seq![torrent.announce] + not_empty(torrent.announce_list)
}

/// The trackers of a torrent.
pub fn trackers_list(data: &ParsedTorrent) -> (list: Vec<String>)
    ensures
        texts(list@) == trackers_of(data.value()),
{
    let ghost torrent = data.value();
    let announce_list = data.announce_list();
    let mut list: Vec<String> = Vec::new();
    list.push(data.announce().as_str().to_owned());
    let mut i: usize = 0;
    assert(torrent.announce_list.take(0) =~= Seq::empty());
    assert(texts(list@) =~= seq![torrent.announce] + not_empty(torrent.announce_list.take(0)));
    while i < announce_list.len()
        invariant
            i <= announce_list@.len(),
            texts(announce_list@) == torrent.announce_list,
            texts(list@) == seq![torrent.announce] + not_empty(
                torrent.announce_list.take(i as int),
            ),
        decreases announce_list@.len() - i,
    {
        let ghost before = texts(list@);
        assert(torrent.announce_list.take(i + 1).drop_last() =~= torrent.announce_list.take(
            i as int,
        ));
        assert(torrent.announce_list[i as int] == announce_list@[i as int]@);
        let item = announce_list[i].as_str();
        if item.unicode_len() > 0 {
            list.push(item.to_owned());
            assert(texts(list@) =~= before.push(torrent.announce_list[i as int]));
        }
        assert(texts(list@) =~= seq![torrent.announce] + not_empty(
            torrent.announce_list.take(i + 1),
        ));
        i = i + 1;
    }
    assert(torrent.announce_list.take(i as int) =~= torrent.announce_list);
    list
}

/// What is known of a torrent, shared by all peers.
pub struct TorrentInfo {
    data: ParsedTorrent,
    piece_length: usize,
    pub total_uploaded: usize,
    pub total_downloaded: usize,
    torrent_pieces: Vec<Piece>,
    torrent_peers: Vec<PeerInfo>,
    bitfield_client: Bitfield,
}

impl TorrentInfo {
    /// What is known of the torrent.
    pub closed spec fn state(self) -> InfoState {
        InfoState {
            torrent: self.data.value(),
            piece_length: self.piece_length,
            total_uploaded: self.total_uploaded,
            total_downloaded: self.total_downloaded,
            pieces: piece_states(self.torrent_pieces@),
            peers: peer_values(self.torrent_peers@),
            bitfield_client: self.bitfield_client@,
        }
    }

    /// A torrent of which nothing was read.
    pub fn new(data: ParsedTorrent) -> (info: TorrentInfo)
        requires
            data.value().info.pieces.len() <= isize::MAX,
        ensures
            info.state() == new_info(data.value()),
            info_state_ok(info.state()),
    {
        let ghost torrent = data.value();
        let piece_length: usize = data.info().piece_length() as usize;
        let pieces: usize = data.info().pieces().len();
        let info = TorrentInfo {
            data,
            piece_length,
            total_uploaded: 0,
            total_downloaded: 0,
            torrent_pieces: Vec::new(),
            torrent_peers: Vec::new(),
            bitfield_client: Bitfield::empty(pieces),
        };
        assert(info.state() =~= new_info(torrent));
        info
    }

    /// The metainfo of the torrent.
    pub fn data(&self) -> (data: &ParsedTorrent)
        ensures
            data.value() == self.state().torrent,
    {
        &self.data
    }

    /// The pieces.
    pub fn torrent_pieces(&self) -> (pieces: &Vec<Piece>)
        ensures
            piece_states(pieces@) == self.state().pieces,
    {
        &self.torrent_pieces
    }

    /// The peers.
    pub fn torrent_peers(&self) -> (peers: &Vec<PeerInfo>)
        ensures
            peer_values(peers@) == self.state().peers,
    {
        &self.torrent_peers
    }

    /// Which pieces are there.
    pub fn bitfield_client(&self) -> (bitfield: &Bitfield)
        ensures
            bitfield@ == self.state().bitfield_client,
    {
        &self.bitfield_client
    }

    /// The number of bytes in a piece.
    pub fn piece_length(&self) -> (length: usize)
        ensures
            length == self.state().piece_length,
    {
        self.piece_length
    }

    /// Notes whether the piece was asked for.
    fn set_requested(&mut self, idx: usize, requested: bool)
        ensures
            final(self).state() == (InfoState {
                pieces: with_requested(old(self).state().pieces, idx, requested),
                ..old(self).state()
            }),
            info_state_ok(old(self).state()) ==> info_state_ok(final(self).state()),
    {
        let ghost before = self.state();
        if idx < self.torrent_pieces.len() {
            assert(before.pieces[idx as int] == self.torrent_pieces@[idx as int]@);
            self.torrent_pieces[idx].set_requested(requested);
        }
        assert(self.state().pieces =~= with_requested(before.pieces, idx, requested));
    }

    /// Notes that the piece is not asked for.
    pub fn release_piece(&mut self, idx: usize)
        ensures
            final(self).state() == (InfoState {
                pieces: with_requested(old(self).state().pieces, idx, false),
                ..old(self).state()
            }),
            info_state_ok(old(self).state()) ==> info_state_ok(final(self).state()),
    {
        self.set_requested(idx, false);
    }

    /// Notes that the piece was asked for.
    pub fn piece_requested(&mut self, idx: usize)
        ensures
            final(self).state() == (InfoState {
                pieces: with_requested(old(self).state().pieces, idx, true),
                ..old(self).state()
            }),
            info_state_ok(old(self).state()) ==> info_state_ok(final(self).state()),
    {
        self.set_requested(idx, true);
    }

    /// The number of pieces.
    pub fn get_pieces_count(&self) -> (count: usize)
        ensures
            count == self.state().pieces.len(),
    {
        self.torrent_pieces.len()
    }

    /// How many pieces are neither complete nor asked for.
    pub fn get_missing_pieces_count(&self) -> (count: usize)
        ensures
            count == missing_count(self.state().pieces),
            count <= self.state().pieces.len(),
    {
        let ghost pieces = self.state().pieces;
        let mut count: usize = 0;
        let mut i: usize = 0;
        assert(pieces.take(0) =~= Seq::empty());
        while i < self.torrent_pieces.len()
            invariant
                i <= self.torrent_pieces@.len(),
                pieces == self.state().pieces,
                count <= i,
                count == missing_count(pieces.take(i as int)),
            decreases self.torrent_pieces@.len() - i,
        {
            assert(pieces.take(i + 1).drop_last() =~= pieces.take(i as int));
            assert(pieces[i as int] == self.torrent_pieces@[i as int]@);
            if !self.torrent_pieces[i].requested() && !self.torrent_pieces[i].finished() {
                count = count + 1;
            }
            i = i + 1;
        }
        assert(pieces.take(i as int) =~= pieces);
        count
    }

    /// The missing piece before which `n` pieces are missing.
    pub fn nth_missing(&self, n: usize) -> (piece: usize)
        requires
            n < missing_count(self.state().pieces),
        ensures
            piece < self.state().pieces.len(),
            is_missing(self.state().pieces[piece as int]),
            missing_count(self.state().pieces.take(piece as int)) == n,
    {
        let ghost pieces = self.state().pieces;
        let mut seen: usize = 0;
        let mut i: usize = 0;
        assert(pieces.take(0) =~= Seq::empty());
        assert(pieces.take(pieces.len() as int) =~= pieces);
        while i < self.torrent_pieces.len()
            invariant
                i <= self.torrent_pieces@.len(),
                pieces == self.state().pieces,
                pieces.take(pieces.len() as int) == pieces,
                n < missing_count(pieces),
                seen <= n,
                seen == missing_count(pieces.take(i as int)),
            decreases self.torrent_pieces@.len() - i,
        {
            assert(pieces.take(i + 1).drop_last() =~= pieces.take(i as int));
            assert(pieces[i as int] == self.torrent_pieces@[i as int]@);
            if !self.torrent_pieces[i].requested() && !self.torrent_pieces[i].finished() {
                if seen == n {
                    return i;
                }
                seen = seen + 1;
            }
            i = i + 1;
        }
        // As many pieces were seen as are missing, which is more than `n`.
        assert(false);
        0
    }

    /// A piece that is neither complete nor asked for, drawn by chance.
    pub fn get_unfinished_piece_idx(&self) -> (piece: usize)
        requires
            missing_count(self.state().pieces) > 0,
        ensures
            piece < self.state().pieces.len(),
            is_missing(self.state().pieces[piece as int]),
    {
        self.nth_missing(random_below(self.get_missing_pieces_count()))
    }

    /// The piece that a peer is to be asked for: the one that it was asked for
    /// before, or else one that is missing, where there is one.
    pub fn piece_to_request(&self, peer: &TcpPeer) -> (piece: Option<usize>)
        ensures
            match peer.state().requested {
                Some(requested) => piece == Some(requested),
                None => match piece {
                    Some(idx) => idx < self.state().pieces.len() && is_missing(
                        self.state().pieces[idx as int],
                    ),
                    None => missing_count(self.state().pieces) == 0,
                },
            },
    {
        match peer.get_assigned_piece() {
            Some(piece) => Some(piece),
            None => if self.get_missing_pieces_count() > 0 {
                Some(self.get_unfinished_piece_idx())
            } else {
                None
            },
        }
    }

    /// Takes a message of a peer, or gives nothing back where the message does not
    /// hold what it needs.
    pub fn try_handle_peer_message(&mut self, peer: &mut TcpPeer, message: Message) -> (outcome:
        Option<PeerOutcome>)
        requires
            info_state_ok(old(self).state()),
        ensures
            match outcome {
                Some(o) => {
                    let step = on_message(
                        old(peer).state(),
                        message@,
                        old(self).state().bitfield_client,
                        old(self).state().pieces,
                    );
                    &&& message_ok(
                        old(peer).state(),
                        message@,
                        old(self).state().bitfield_client,
                        old(self).state().pieces,
                    )
                    &&& final(peer).state() == step.state
                    &&& final(self).state() == (InfoState {
                        pieces: step.pieces,
                        ..old(self).state()
                    })
                    &&& o@ == step.outcome
                },
                None => {
                    &&& !message_ok(
                        old(peer).state(),
                        message@,
                        old(self).state().bitfield_client,
                        old(self).state().pieces,
                    )
                    &&& *final(peer) == *old(peer)
                    &&& *final(self) == *old(self)
                },
            },
            info_state_ok(final(self).state()),
    {
        if !peer.can_handle(&message, &self.bitfield_client, &self.torrent_pieces) {
            return None;
        }
        Some(
            peer.handle_peer_message(message, &self.bitfield_client, &mut self.torrent_pieces),
        )
    }

    /// What is done to ask a peer for a piece, or nothing where the peer does not
    /// say whether it has it.
    pub fn try_request_piece(&self, peer: &TcpPeer, piece: usize) -> (plan: Option<RequestPlan>)
        ensures
            match plan {
                Some(p) => request_ok(peer.state(), piece, self.state().pieces) && p@ == plan_of(
                    peer.state(),
                    piece,
                    self.state().pieces,
                ),
                None => !request_ok(peer.state(), piece, self.state().pieces),
            },
    {
        if peer.can_request(piece, &self.torrent_pieces) {
            Some(peer.request_piece(piece, &self.torrent_pieces))
        } else {
            None
        }
    }

    /// Adds the piece at which a walk stands: complete where the data that was read
    /// for it has its digest. The walk goes on to the next piece.
    pub fn add_checked_piece(&mut self, walk: &mut PieceWalk, piece_data: &[u8], filesize: usize) -> (
    finished: bool)
        requires
            info_state_ok(old(self).state()),
            old(walk).piece < old(self).state().torrent.info.pieces.len(),
            old(walk).can_go_on(piece_data@.len() as int),
            old(self).state().pieces.len() == old(walk).piece,
            piece_data@.len() <= MAX_HASHED_LEN,
            piece_data@.len() <= isize::MAX,
        ensures
            finished == (sha1_of(piece_data@)
                == old(self).state().torrent.info.pieces[old(walk).piece as int]),
            final(self).state() == with_checked(old(self).state(), *old(walk), piece_data@),
            final(walk).piece == old(walk).piece + 1,
            (final(walk).file as int, final(walk).offset as int) == next_start(
                old(walk).file as int,
                old(walk).offset as int,
                piece_data@.len() as int,
                filesize as int,
            ),
            info_state_ok(final(self).state()),
    {
        let ghost before = self.state();
        let ghost at = *walk;
        let current_piece: usize = walk.piece;
        let hashes = self.data.info().pieces();
        assert(contents(hashes@)[current_piece as int] == hashes@[current_piece as int]@);
        let piece_hash = copy_bytes(hashes[current_piece].as_slice());
        let digest = sha1_digest(piece_data);
        let finished = same_bytes(digest.as_slice(), piece_hash.as_slice());
        let piece = Piece::new(piece_data.len(), piece_hash, walk.file, walk.offset, finished);
        if finished {
            proof {
                assert((current_piece as u32) <= current_piece) by (bit_vector);
            }
            self.bitfield_client.piece_finished(current_piece as u32);
        }
        walk.go_on(piece_data.len(), filesize);
        self.torrent_pieces.push(piece);
        proof {
            assert(self.state().pieces =~= before.pieces.push(piece@));
            assert(self.state() =~= with_checked(before, at, piece_data@));
        }
        finished
    }

    /// Adds a peer, unless one with the address is there.
    pub fn add_peer(&mut self, address: PeerAddress, now: u128) -> (added: bool)
        ensures
            added == !has_address(old(self).state().peers, address),
            final(self).state() == (InfoState {
                peers: if added {
                    old(self).state().peers.push(new_peer_info(address, now))
                } else {
                    old(self).state().peers
                },
                ..old(self).state()
            }),
            info_state_ok(old(self).state()) ==> info_state_ok(final(self).state()),
    {
        let ghost before = self.state();
        let mut i: usize = 0;
        while i < self.torrent_peers.len()
            invariant
                i <= self.torrent_peers@.len(),
                before == self.state(),
                *self == *old(self),
                forall|k: int| 0 <= k < i ==> (#[trigger] before.peers[k]).address != address,
            decreases self.torrent_peers@.len() - i,
        {
            assert(before.peers[i as int] == self.torrent_peers@[i as int]@);
            if self.torrent_peers[i].address() == address {
                return false;
            }
            i = i + 1;
        }
        self.torrent_peers.push(PeerInfo::new(address, now));
        assert(self.state().peers =~= before.peers.push(new_peer_info(address, now)));
        true
    }

    /// Notes that a peer has left.
    pub fn peer_left(&mut self, address: PeerAddress)
        ensures
            final(self).state() == (InfoState {
                peers: left(old(self).state().peers, address),
                ..old(self).state()
            }),
            info_state_ok(old(self).state()) ==> info_state_ok(final(self).state()),
    {
        let ghost before = self.state();
        let mut i: usize = 0;
        while i < self.torrent_peers.len()
            invariant
                i <= self.torrent_peers@.len(),
                self.state() == (InfoState { peers: self.state().peers, ..before }),
                self.state().peers.len() == before.peers.len(),
                forall|k: int|
                    0 <= k < i ==> #[trigger] self.state().peers[k] == left(
                        before.peers,
                        address,
                    )[k],
                forall|k: int|
                    i <= k < before.peers.len() ==> #[trigger] self.state().peers[k]
                        == before.peers[k],
            decreases self.torrent_peers@.len() - i,
        {
            let ghost now = self.state().peers;
            assert(now[i as int] == self.torrent_peers@[i as int]@);
            if self.torrent_peers[i].address() == address {
                self.torrent_peers[i].set_active(false);
                assert(self.state().peers =~= now.update(
                    i as int,
                    PeerInfoValue { active: false, ..now[i as int] },
                ));
            }
            i = i + 1;
        }
        assert(self.state().peers =~= left(before.peers, address));
    }

    /// Lets go of the peers that have left.
    pub fn drop_left_peers(&mut self)
        ensures
            final(self).state() == (InfoState {
                peers: active_peers(old(self).state().peers),
                ..old(self).state()
            }),
            info_state_ok(old(self).state()) ==> info_state_ok(final(self).state()),
    {
        let ghost before = self.state();
        let ghost all = before.peers;
        let mut i: usize = 0;
        let mut seen: usize = 0;
        let count: usize = self.torrent_peers.len();
        proof {
            assert(all.take(0) =~= Seq::empty());
            assert(all.skip(0) =~= all);
            assert(self.state().peers =~= active_peers(all.take(0)) + all.skip(0));
        }
        while seen < count
            invariant
                count == all.len(),
                all == before.peers,
                i <= seen <= count,
                i == active_peers(all.take(seen as int)).len(),
                self.state() == (InfoState { peers: self.state().peers, ..before }),
                self.state().peers == active_peers(all.take(seen as int)) + all.skip(seen as int),
            decreases count - seen,
        {
            let ghost now = self.state().peers;
            assert(now.len() == i + (count - seen));
            assert(now == peer_values(self.torrent_peers@));
            assert(now.len() == self.torrent_peers@.len());
            assert(now[i as int] == all[seen as int]);
            assert(now[i as int] == self.torrent_peers@[i as int]@);
            assert(all.take(seen + 1).drop_last() =~= all.take(seen as int));
            if self.torrent_peers[i].active() {
                assert(self.state().peers =~= active_peers(all.take(seen + 1)) + all.skip(
                    seen + 1,
                ));
                i = i + 1;
            } else {
                self.torrent_peers.remove(i);
                assert(self.state().peers =~= now.remove(i as int));
                assert(self.state().peers =~= active_peers(all.take(seen + 1)) + all.skip(
                    seen + 1,
                ));
            }
            seen = seen + 1;
        }
        assert(all.take(count as int) =~= all);
        assert(self.state().peers =~= active_peers(all));
    }
}

/// A peer with the address is there.
pub open spec fn has_address(peers: Seq<PeerInfoValue>, address: PeerAddress) -> bool {
    exists|i: int| 0 <= i < peers.len() && (#[trigger] peers[i]).address == address
}

/// The peers, those with the address no longer connected.
pub open spec fn left(peers: Seq<PeerInfoValue>, address: PeerAddress) -> Seq<PeerInfoValue> {
    peers.map_values(
        |peer: PeerInfoValue|
            if peer.address == address {
                PeerInfoValue { active: false, ..peer }
            } else {
                peer
            },
    )
}

/// The peers that are connected.
pub open spec fn active_peers(peers: Seq<PeerInfoValue>) -> Seq<PeerInfoValue>
    decreases peers.len(),
{
    if peers.len() == 0 {
        Seq::empty()
    } else {
        let before = active_peers(peers.drop_last());
        if peers.last().active {
            before.push(peers.last())
        } else {
            before
        }
    }
}

/// What is known of a torrent once the piece at which a walk stands was read.
pub open spec fn with_checked(state: InfoState, walk: PieceWalk, data: Seq<u8>) -> InfoState {
    let hash = state.torrent.info.pieces[walk.piece as int];
    let finished = sha1_of(data) == hash;
    InfoState {
        pieces: state.pieces.push(
            new_piece(data.len() as usize, hash, walk.file, walk.offset, finished),
        ),
        bitfield_client: if finished {
            state.bitfield_client.update(walk.piece as u32 as int, true)
        } else {
            state.bitfield_client
        },
        ..state
    }
}

/// A piece that is asked for is no longer missing, and one that is released and
/// not complete is missing again.
pub proof fn lemma_requested_is_not_missing(pieces: Seq<PieceState>, idx: usize)
    requires
        idx < pieces.len(),
    ensures
        !is_missing(with_requested(pieces, idx, true)[idx as int]),
        !pieces[idx as int].finished ==> is_missing(
            with_requested(pieces, idx, false)[idx as int],
        ),
        with_requested(with_requested(pieces, idx, true), idx, false) == with_requested(
            pieces,
            idx,
            false,
        ),
{
    assert(with_requested(with_requested(pieces, idx, true), idx, false) =~= with_requested(
        pieces,
        idx,
        false,
    ));
}

/// Pieces are missing just when one of them is.
pub proof fn lemma_missing_count(pieces: Seq<PieceState>)
    ensures
        missing_count(pieces) > 0 <==> exists|i: int|
            0 <= i < pieces.len() && is_missing(#[trigger] pieces[i]),
    decreases pieces.len(),
{
    if pieces.len() > 0 {
        let shorter = pieces.drop_last();
        lemma_missing_count(shorter);
        if missing_count(shorter) > 0 {
            let i = choose|i: int| 0 <= i < shorter.len() && is_missing(#[trigger] shorter[i]);
            assert(is_missing(pieces[i]));
        }
        if is_missing(pieces.last()) {
            assert(is_missing(pieces[pieces.len() - 1]));
        }
        if exists|i: int| 0 <= i < pieces.len() && is_missing(#[trigger] pieces[i]) {
            let i = choose|i: int| 0 <= i < pieces.len() && is_missing(#[trigger] pieces[i]);
            if i < shorter.len() {
                assert(is_missing(shorter[i]));
            }
        }
    }
}

/// Every missing piece can be drawn, and by one number alone: the number of missing
/// pieces before it is below that of all missing pieces, and no two missing pieces
/// have the same number.
pub proof fn lemma_missing_is_drawn(pieces: Seq<PieceState>, piece: int)
    requires
        0 <= piece < pieces.len(),
        is_missing(pieces[piece]),
    ensures
        missing_count(pieces.take(piece)) < missing_count(pieces),
        forall|other: int|
            0 <= other < pieces.len() && other != piece && is_missing(pieces[other])
                ==> #[trigger] missing_count(pieces.take(other)) != missing_count(
                pieces.take(piece),
            ),
{
    assert(pieces.take(pieces.len() as int) =~= pieces);
    lemma_count_grows(pieces, piece, pieces.len() as int);
    assert forall|other: int|
        0 <= other < pieces.len() && other != piece && is_missing(
            pieces[other],
        ) implies #[trigger] missing_count(pieces.take(other)) != missing_count(
        pieces.take(piece),
    ) by {
        if other < piece {
            lemma_count_grows(pieces, other, piece);
        } else {
            lemma_count_grows(pieces, piece, other);
        }
    }
}

proof fn lemma_count_grows(pieces: Seq<PieceState>, from: int, to: int)
    requires
        0 <= from < to <= pieces.len(),
        is_missing(pieces[from]),
    ensures
        missing_count(pieces.take(from)) < missing_count(pieces.take(to)),
    decreases to - from,
{
    assert(pieces.take(to).drop_last() =~= pieces.take(to - 1));
    if to - 1 > from {
        lemma_count_grows(pieces, from, to - 1);
    }
}

} // verus!
