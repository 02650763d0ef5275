//! A client in which the engine and its peers talk over channels.
//!
//! The engine gives pieces to peers that are ready for them, takes the pieces
//! that they bring, and lets go of peers that have left.
use vstd::prelude::*;

use crate::address::PeerAddress;
use crate::engine::peer::state::{CommandValue, PeerStatus};
use crate::engine::peer::tcp::PeerCommand;
use crate::engine::transfer::{
    Added, Span, Transfer, TransferPiece, TransferProgress, TransferState, addable, all_complete, assigned,
    digest_matches, first_suiting, free, piece_added, piece_readable, piece_spans, progress_of,
    search_ok, suits, transfer_ok, unassigned, write_spans,
};
use crate::hashing::MAX_HASHED_LEN;

pub mod peer;
pub mod tracker;
pub mod transfer;

verus! {

/// How many pieces a peer is given at once.
pub const PIECES_PER_PEER: usize = 5;

/// A peer as the engine knows it.
#[verifier::ext_equal]
pub struct ControlValue {
    pub address: PeerAddress,
    pub status: PeerStatus,
    pub available_pieces: Seq<bool>,
    pub assigned_pieces: Seq<(usize, u64)>,
}

/// The state of the engine.
#[verifier::ext_equal]
pub struct EngineState {
    pub transfer: TransferState,
    pub controls: Seq<ControlValue>,
    pub complete: bool,
}

/// A peer of which nothing is known yet.
pub open spec fn fresh_control(address: PeerAddress) -> ControlValue {
    ControlValue {
        address,
        status: PeerStatus::Busy,
        available_pieces: Seq::empty(),
        assigned_pieces: Seq::empty(),
    }
}

/// The peer is known.
pub open spec fn has_peer(controls: Seq<ControlValue>, address: PeerAddress) -> bool {
    exists|i: int| 0 <= i < controls.len() && (#[trigger] controls[i]).address == address
}

/// What holds of the engine at any time: its torrent is in order, no peer occurs
/// twice, and every piece that was given to a peer is one of the torrent.
pub open spec fn engine_ok(state: EngineState) -> bool {
    &&& transfer_ok(state.transfer)
    &&& forall|i: int, j: int|
        0 <= i < j < state.controls.len() ==> (#[trigger] state.controls[i]).address != (
        #[trigger] state.controls[j]).address
    &&& forall|i: int, k: int|
        0 <= i < state.controls.len() && 0 <= k < state.controls[i].assigned_pieces.len() ==> (
        #[trigger] state.controls[i].assigned_pieces[k]).0 < state.transfer.pieces.len()
}

/// The peers among a list that are not known.
pub open spec fn new_peers(controls: Seq<ControlValue>, peers: Seq<PeerAddress>) -> Seq<PeerAddress>
    decreases peers.len(),
{
    if peers.len() == 0 {
        Seq::empty()
    } else {
        let before = new_peers(controls, peers.drop_last());
        if has_peer(controls, peers.last()) {
            before
        } else {
            before.push(peers.last())
        }
    }
}

/// The peers with those of a list among them.
pub open spec fn with_peers(controls: Seq<ControlValue>, peers: Seq<PeerAddress>) -> Seq<
    ControlValue,
>
    decreases peers.len(),
{
    if peers.len() == 0 {
        controls
    } else {
        let before = with_peers(controls, peers.drop_last());
        if has_peer(before, peers.last()) {
            before
        } else {
            before.push(fresh_control(peers.last()))
        }
    }
}

/// Gives a peer pieces, one after the other: each time the first one that is free
/// and that the peer has, and no more than `count`. Nothing where the peer does
/// not say of a piece whether it has it.
pub open spec fn give(
    transfer: TransferState,
    available: Seq<bool>,
    address: PeerAddress,
    count: nat,
) -> Option<(TransferState, Seq<(usize, u64)>)>
    decreases count,
{
    if count == 0 || available.len() == 0 {
        Some((transfer, Seq::empty()))
    } else if !search_ok(transfer.pieces, available) {
        None
    } else if exists|i: int| first_suiting(transfer.pieces, available, i) {
        let i = choose|i: int| first_suiting(transfer.pieces, available, i);
        let piece = transfer.pieces[i];
        match give(assigned(transfer, i, address), available, address, (count - 1) as nat) {
            Some((after, rest)) => Some((after, seq![(piece.idx, piece.length as u64)] + rest)),
            None => None,
        }
    } else {
        Some((transfer, Seq::empty()))
    }
}

/// What the engine does for a peer.
pub enum PeerTask {
    /// Nothing.
    Rest,
    /// Send the command.
    Command(PeerCommand),
    /// Read the piece from these stretches, and send it.
    SendPiece(usize, Vec<Span>),
}

/// What became of a piece that a peer brought.
pub enum PieceOutcome {
    /// The piece is complete: its data is to be written to these stretches, and
    /// the others are to be told of the piece and of how far the torrent has come.
    Complete(Vec<Span>, TransferProgress),
    /// The data is not the piece.
    Invalid,
}

/// A peer as the engine knows it.
pub struct PeerControl {
    address: PeerAddress,
    status: PeerStatus,
    available_pieces: Vec<bool>,
    assigned_pieces: Vec<(usize, u64)>,
}

impl View for PeerControl {
    type V = ControlValue;

    closed spec fn view(&self) -> ControlValue {
        ControlValue {
            address: self.address,
            status: self.status,
            available_pieces: self.available_pieces@,
            assigned_pieces: self.assigned_pieces@,
        }
    }
}

/// The piece is one of those that were given.
pub open spec fn holds_piece(pieces: Seq<(usize, u64)>, piece: usize) -> bool {
    exists|k: int| 0 <= k < pieces.len() && (#[trigger] pieces[k]).0 == piece
}

/// The first place of a piece among those that were given.
pub open spec fn first_holding(pieces: Seq<(usize, u64)>, piece: usize, k: int) -> bool {
    &&& 0 <= k < pieces.len()
    &&& pieces[k].0 == piece
    &&& forall|j: int| 0 <= j < k ==> (#[trigger] pieces[j]).0 != piece
}

/// The pieces without the first of that number.
pub open spec fn without_piece(pieces: Seq<(usize, u64)>, piece: usize) -> Seq<(usize, u64)> {
    if holds_piece(pieces, piece) {
        pieces.remove(choose|k: int| first_holding(pieces, piece, k))
    } else {
        pieces
    }
}

impl PeerControl {
    /// A peer of which nothing is known yet.
    pub fn new(address: PeerAddress) -> (control: PeerControl)
        ensures
            control@ == fresh_control(address),
    {
        let control = PeerControl {
            address,
            status: PeerStatus::Busy,
            available_pieces: Vec::new(),
            assigned_pieces: Vec::with_capacity(PIECES_PER_PEER),
        };
        assert(control@ =~= fresh_control(address));
        control
    }

    /// The peer's address.
    pub fn address(&self) -> (address: PeerAddress)
        ensures
            address == self@.address,
    {
        self.address
    }

    /// How the peer is.
    pub fn status(&self) -> (status: PeerStatus)
        ensures
            status == self@.status,
    {
        self.status
    }

    /// Whether the piece was given to the peer.
    pub fn has_piece_assigned(&self, piece: usize) -> (has: bool)
        ensures
            has == holds_piece(self@.assigned_pieces, piece),
    {
        self.place_of(piece).is_some()
    }

    /// The first place of a piece among those that were given to the peer.
    fn place_of(&self, piece: usize) -> (place: Option<usize>)
        ensures
            match place {
                Some(k) => first_holding(self@.assigned_pieces, piece, k as int),
                None => !holds_piece(self@.assigned_pieces, piece),
            },
    {
        let mut k: usize = 0;
        while k < self.assigned_pieces.len()
            invariant
                k <= self.assigned_pieces@.len(),
                forall|j: int| 0 <= j < k ==> (#[trigger] self.assigned_pieces@[j]).0 != piece,
            decreases self.assigned_pieces@.len() - k,
        {
            if self.assigned_pieces[k].0 == piece {
                return Some(k);
            }
            k = k + 1;
        }
        None
    }

    /// Takes the piece from those that were given to the peer.
    fn release(&mut self, piece: usize)
        ensures
            final(self)@ == (ControlValue {
                assigned_pieces: without_piece(old(self)@.assigned_pieces, piece),
                ..old(self)@
            }),
    {
        let ghost before = self@.assigned_pieces;
        match self.place_of(piece) {
            Some(k) => {
                proof {
                    let other = choose|j: int| first_holding(before, piece, j);
                    assert(first_holding(before, piece, k as int));
                    assert(before[k as int].0 == piece);
                    assert(other == k);
                }
                self.assigned_pieces.remove(k);
            },
            None => {},
        }
        assert(self@.assigned_pieces =~= without_piece(before, piece));
    }

    /// Notes how the peer is.
    pub fn update_status(&mut self, news: StatusNews)
        ensures
            final(self)@ == (ControlValue {
                status: news_status(old(self)@.status, news),
                ..old(self)@
            }),
    {
        match news {
            StatusNews::Unchanged => {},
            StatusNews::Changed(status) => {
                self.status = status;
            },
            StatusNews::Gone => {
                self.status = PeerStatus::Disconnected;
            },
        }
    }
}

/// What is heard of a peer.
#[derive(Clone, Copy, Debug)]
pub enum StatusNews {
    Unchanged,
    Changed(PeerStatus),
    /// The peer is no longer heard of.
    Gone,
}

/// How a peer is after what is heard of it.
pub open spec fn news_status(status: PeerStatus, news: StatusNews) -> PeerStatus {
    match news {
        StatusNews::Unchanged => status,
        StatusNews::Changed(status) => status,
        StatusNews::Gone => PeerStatus::Disconnected,
    }
}

/// The peers as the engine knows them.
pub open spec fn control_values(controls: Seq<PeerControl>) -> Seq<ControlValue> {
    controls.map_values(|c: PeerControl| c@)
}

/// The engine.
pub struct Engine {
    transfer: Transfer,
    peers_controls: Vec<PeerControl>,
    complete: bool,
}

impl Engine {
    /// The state of the engine.
    pub closed spec fn state(self) -> EngineState {
        EngineState {
            transfer: self.transfer.state(),
            controls: control_values(self.peers_controls@),
            complete: self.complete,
        }
    }

    /// An engine without peers.
    pub fn init(transfer: Transfer) -> (engine: Engine)
        requires
            transfer_ok(transfer.state()),
        ensures
            engine.state() == (EngineState {
                transfer: transfer.state(),
                controls: Seq::empty(),
                complete: false,
            }),
            engine_ok(engine.state()),
    {
        let engine = Engine { transfer, peers_controls: Vec::new(), complete: false };
        assert(engine.state().controls =~= Seq::empty());
        engine
    }

    /// The torrent.
    pub fn transfer(&self) -> (transfer: &Transfer)
        ensures
            transfer.state() == self.state().transfer,
    {
        &self.transfer
    }

    /// The number of peers.
    pub fn peer_count(&self) -> (count: usize)
        ensures
            count == self.state().controls.len(),
    {
        self.peers_controls.len()
    }

    /// A peer.
    pub fn peer(&self, i: usize) -> (control: &PeerControl)
        requires
            i < self.state().controls.len(),
        ensures
            control@ == self.state().controls[i as int],
    {
        &self.peers_controls[i]
    }

    /// Whether the peer is known.
    fn knows(&self, address: PeerAddress) -> (known: bool)
        ensures
            known == has_peer(self.state().controls, address),
    {
        let ghost controls = self.state().controls;
        let mut i: usize = 0;
        while i < self.peers_controls.len()
            invariant
                i <= self.peers_controls@.len(),
                controls == self.state().controls,
                forall|k: int| 0 <= k < i ==> (#[trigger] controls[k]).address != address,
            decreases self.peers_controls@.len() - i,
        {
            assert(controls[i as int] == self.peers_controls@[i as int]@);
            if self.peers_controls[i].address == address {
                return true;
            }
            i = i + 1;
        }
        false
    }

    /// Adds the peers of a list that are not known, and says which to connect to.
    pub fn add_peers(&mut self, peers: &Vec<PeerAddress>) -> (unknown: Vec<PeerAddress>)
        requires
            engine_ok(old(self).state()),
        ensures
            unknown@ == new_peers(old(self).state().controls, peers@),
            final(self).state() == (EngineState {
                controls: with_peers(old(self).state().controls, unknown@),
                ..old(self).state()
            }),
            engine_ok(final(self).state()),
    {
        let ghost before = self.state();
        let mut unknown: Vec<PeerAddress> = Vec::new();
        let mut i: usize = 0;
        assert(peers@.take(0) =~= Seq::empty());
        while i < peers.len()
            invariant
                i <= peers@.len(),
                before == self.state(),
                unknown@ == new_peers(before.controls, peers@.take(i as int)),
            decreases peers@.len() - i,
        {
            assert(peers@.take(i + 1).drop_last() =~= peers@.take(i as int));
            if !self.knows(peers[i]) {
                unknown.push(peers[i]);
            }
            i = i + 1;
        }
        assert(peers@.take(i as int) =~= peers@);
        let mut n: usize = 0;
        assert(unknown@.take(0) =~= Seq::empty());
        while n < unknown.len()
            invariant
                n <= unknown@.len(),
                self.state() == (EngineState {
                    controls: with_peers(before.controls, unknown@.take(n as int)),
                    ..before
                }),
                engine_ok(self.state()),
            decreases unknown@.len() - n,
        {
            let ghost controls = self.state().controls;
            assert(unknown@.take(n + 1).drop_last() =~= unknown@.take(n as int));
            if !self.knows(unknown[n]) {
                self.peers_controls.push(PeerControl::new(unknown[n]));
                assert(self.state().controls =~= controls.push(
                    fresh_control(unknown@[n as int]),
                ));
                proof {
                    assert forall|a: int, k: int|
                        0 <= a < self.state().controls.len() && 0 <= k
                            < self.state().controls[a].assigned_pieces.len() implies (
                    #[trigger] self.state().controls[a].assigned_pieces[k]).0
                        < self.state().transfer.pieces.len() by {
                        assert(a < controls.len());
                    }
                }
            }
            n = n + 1;
        }
        assert(unknown@.take(n as int) =~= unknown@);
        unknown
    }

    /// Notes what is heard of a peer: how it is, and which pieces it has.
    pub fn update_peer(&mut self, i: usize, news: StatusNews, pieces: Option<Vec<bool>>)
        requires
            i < old(self).state().controls.len(),
        ensures
            final(self).state() == (EngineState {
                controls: old(self).state().controls.update(
                    i as int,
                    ControlValue {
                        status: news_status(old(self).state().controls[i as int].status, news),
                        available_pieces: match pieces {
                            Some(pieces) => pieces@,
                            None => old(self).state().controls[i as int].available_pieces,
                        },
                        ..old(self).state().controls[i as int]
                    },
                ),
                ..old(self).state()
            }),
            engine_ok(old(self).state()) ==> engine_ok(final(self).state()),
    {
        let ghost before = self.state();
        self.peers_controls[i].update_status(news);
        if let Some(pieces) = pieces {
            self.peers_controls[i].available_pieces = pieces;
        }
        proof {
            let control = self.peers_controls@[i as int]@;
            assert(self.state().controls =~= before.controls.update(i as int, control));
            assert(control.assigned_pieces == before.controls[i as int].assigned_pieces);
            lemma_update_keeps_engine_ok(before, i as int, control, before.transfer);
        }
    }

    /// Notes that a command could not be sent to a peer.
    pub fn command_failed(&mut self, i: usize)
        requires
            i < old(self).state().controls.len(),
        ensures
            final(self).state() == (EngineState {
                controls: old(self).state().controls.update(
                    i as int,
                    ControlValue {
                        status: PeerStatus::Disconnected,
                        ..old(self).state().controls[i as int]
                    },
                ),
                ..old(self).state()
            }),
            engine_ok(old(self).state()) ==> engine_ok(final(self).state()),
    {
        self.update_peer(i, StatusNews::Gone, None);
    }

    /// Gives the peer pieces that it has, at most as many as it can be given at
    /// once. Where the peer does not say of a piece whether it has it, those that it
    /// was given are free again and nothing comes back.
    fn give_pieces(&mut self, i: usize) -> (pieces: Option<Vec<(usize, u64)>>)
        requires
            i < old(self).state().controls.len(),
            transfer_ok(old(self).state().transfer),
        ensures
            ({
                let control = old(self).state().controls[i as int];
                match pieces {
                    Some(list) => give(
                        old(self).state().transfer,
                        control.available_pieces,
                        control.address,
                        PIECES_PER_PEER as nat,
                    ) == Some((final(self).state().transfer, list@)),
                    None => give(
                        old(self).state().transfer,
                        control.available_pieces,
                        control.address,
                        PIECES_PER_PEER as nat,
                    ) is None && final(self).state() == old(self).state(),
                }
            }),
            final(self).state() == (EngineState {
                transfer: final(self).state().transfer,
                ..old(self).state()
            }),
            transfer_ok(final(self).state().transfer),
            final(self).state().transfer.pieces.len() == old(self).state().transfer.pieces.len(),
            pieces matches Some(list) ==> forall|k: int|
                0 <= k < list@.len() ==> (#[trigger] list@[k]).0 < old(
                    self,
                ).state().transfer.pieces.len(),
    {
        let ghost before = self.state();
        let ghost control = self.state().controls[i as int];
        let address = self.peers_controls[i].address;
        let mut pieces: Vec<(usize, u64)> = Vec::with_capacity(PIECES_PER_PEER);
        let ghost goal = give(
            before.transfer,
            control.available_pieces,
            address,
            PIECES_PER_PEER as nat,
        );
        proof {
            let now = give(
                self.state().transfer,
                control.available_pieces,
                address,
                PIECES_PER_PEER as nat,
            );
            if let Some((after, rest)) = now {
                assert(pieces@ + rest =~= rest);
            }
            assert(pieces_freed(before.transfer.pieces, pieces@) =~= before.transfer.pieces);
        }
        while pieces.len() < PIECES_PER_PEER
            invariant
                i < self.state().controls.len(),
                before == old(self).state(),
                pieces@.len() <= PIECES_PER_PEER,
                control == before.controls[i as int],
                address == control.address,
                self.state() == (EngineState { transfer: self.state().transfer, ..before }),
                transfer_ok(self.state().transfer),
                self.state().transfer.pieces.len() == before.transfer.pieces.len(),
                self.state().transfer == (TransferState {
                    pieces: self.state().transfer.pieces,
                    ..before.transfer
                }),
                pieces_freed(self.state().transfer.pieces, pieces@) == before.transfer.pieces,
                goal == give(
                    before.transfer,
                    control.available_pieces,
                    address,
                    PIECES_PER_PEER as nat,
                ),
                goal == give_on(
                    pieces@,
                    give(
                        self.state().transfer,
                        control.available_pieces,
                        address,
                        (PIECES_PER_PEER - pieces@.len()) as nat,
                    ),
                ),
                forall|k: int|
                    0 <= k < pieces@.len() ==> (#[trigger] pieces@[k]).0
                        < before.transfer.pieces.len(),
            decreases PIECES_PER_PEER - pieces.len(),
        {
            let available = &self.peers_controls[i].available_pieces;
            assert(available@ == control.available_pieces);
            let ghost transfer = self.state().transfer;
            if available.len() == 0 {
                assert(pieces@ + Seq::<(usize, u64)>::empty() =~= pieces@);
                return Some(pieces);
            }
            if !self.transfer.can_search(available) {
                self.free_pieces(&pieces);
                return None;
            }
            match self.transfer.find_piece_for_peer(available) {
                Some(place) => {
                    proof {
                        let chosen = choose|k: int|
                            first_suiting(transfer.pieces, control.available_pieces, k);
                        assert(first_suiting(
                            transfer.pieces,
                            control.available_pieces,
                            place as int,
                        ));
                        assert(suits(transfer.pieces, control.available_pieces, chosen));
                        assert(suits(transfer.pieces, control.available_pieces, place as int));
                        assert(chosen == place);
                    }
                    let all = self.transfer.pieces();
                    assert(all.len() <= usize::MAX);
                    let piece = all[place];
                    self.transfer.assign_piece(place, address);
                    let ghost given = pieces@;
                    pieces.push((piece.idx(), piece.length() as u64));
                    proof {
                        let rest = give(
                            self.state().transfer,
                            control.available_pieces,
                            address,
                            (PIECES_PER_PEER - pieces@.len()) as nat,
                        );
                        if let Some((after, list)) = rest {
                            assert(given + (seq![(piece.idx, piece.length as u64)] + list)
                                =~= pieces@ + list);
                        }
                        assert(pieces@.take(given.len() as int) =~= given);
                        lemma_give_and_free(transfer.pieces, given, place, address, pieces@);
                    }
                },
                None => {
                    proof {
                        if exists|k: int|
                            first_suiting(transfer.pieces, control.available_pieces, k) {
                            let k = choose|k: int|
                                first_suiting(transfer.pieces, control.available_pieces, k);
                            assert(suits(transfer.pieces, control.available_pieces, k));
                        }
                        assert(pieces@ + Seq::<(usize, u64)>::empty() =~= pieces@);
                    }
                    return Some(pieces);
                },
            }
        }
        assert(pieces@ + Seq::<(usize, u64)>::empty() =~= pieces@);
        Some(pieces)
    }

    /// Does what a peer needs. Nothing comes back where the peer does not say of a
    /// piece whether it has it, or wants a piece that there is not; then nothing has
    /// changed.
    pub fn try_serve_peer(&mut self, i: usize) -> (task: Option<PeerTask>)
        requires
            i < old(self).state().controls.len(),
            engine_ok(old(self).state()),
        ensures
            match task {
                Some(t) => served(old(self).state(), i as int) == Some(
                    (final(self).state(), task_value(t)),
                ),
                None => served(old(self).state(), i as int) is None && final(self).state() == old(
                    self,
                ).state(),
            },
            engine_ok(final(self).state()),
    {
        let ghost before = self.state();
        let ghost control = self.state().controls[i as int];
        match self.peers_controls[i].status {
            PeerStatus::ConnectionEstablished => {
                let available = &self.peers_controls[i].available_pieces;
                assert(available@ == control.available_pieces);
                if available.len() > 0 && !self.transfer.can_search(available) {
                    return None;
                }
                match self.transfer.find_piece_for_peer(available) {
                    Some(place) => {
                        assert(first_suiting(
                            before.transfer.pieces,
                            control.available_pieces,
                            place as int,
                        ));
                        Some(PeerTask::Command(PeerCommand::SendInterested))
                    },
                    None => {
                        proof {
                            if exists|k: int|
                                first_suiting(
                                    before.transfer.pieces,
                                    control.available_pieces,
                                    k,
                                ) {
                                let k = choose|k: int|
                                    first_suiting(
                                        before.transfer.pieces,
                                        control.available_pieces,
                                        k,
                                    );
                                assert(suits(before.transfer.pieces, control.available_pieces, k));
                            }
                        }
                        Some(PeerTask::Rest)
                    },
                }
            },
            PeerStatus::Ready => {
                match self.give_pieces(i) {
                    Some(pieces) => {
                        proof {
                            lemma_update_keeps_engine_ok(
                                before,
                                i as int,
                                control,
                                self.state().transfer,
                            );
                            assert(before.controls.update(i as int, control) =~= before.controls);
                        }
                        if pieces.len() == 0 {
                            return Some(PeerTask::Rest);
                        }
                        let ghost middle = self.state();
                        let copy = copy_pieces(&pieces);
                        self.peers_controls[i].assigned_pieces = copy;
                        proof {
                            let changed = self.peers_controls@[i as int]@;
                            assert(changed =~= ControlValue {
                                assigned_pieces: pieces@,
                                ..control
                            });
                            assert(self.state().controls =~= before.controls.update(
                                i as int,
                                changed,
                            ));
                            lemma_update_keeps_engine_ok(
                                before,
                                i as int,
                                changed,
                                self.state().transfer,
                            );
                        }
                        Some(PeerTask::Command(PeerCommand::RequestPiece { pieces }))
                    },
                    None => None,
                }
            },
            PeerStatus::RequestedPiece(piece) => {
                if piece >= self.transfer.piece_count() {
                    return None;
                }
                match self.transfer.try_read_piece(piece) {
                    Some(spans) => Some(PeerTask::SendPiece(piece, spans)),
                    None => None,
                }
            },
            _ => Some(PeerTask::Rest),
        }
    }

    /// The first peer that was given the piece.
    fn holder_of(&self, piece: usize) -> (holder: Option<usize>)
        ensures
            match holder {
                Some(i) => first_holder(self.state().controls, piece, i as int),
                None => forall|i: int|
                    0 <= i < self.state().controls.len() ==> !holds_piece(
                        (#[trigger] self.state().controls[i]).assigned_pieces,
                        piece,
                    ),
            },
    {
        let ghost controls = self.state().controls;
        let mut i: usize = 0;
        while i < self.peers_controls.len()
            invariant
                i <= self.peers_controls@.len(),
                controls == self.state().controls,
                forall|k: int|
                    0 <= k < i ==> !holds_piece((#[trigger] controls[k]).assigned_pieces, piece),
            decreases self.peers_controls@.len() - i,
        {
            assert(controls[i as int] == self.peers_controls@[i as int]@);
            if self.peers_controls[i].has_piece_assigned(piece) {
                return Some(i);
            }
            i = i + 1;
        }
        None
    }

    /// Takes the data of a piece that a peer brought. Nothing comes back where
    /// there is no such piece, or it cannot be added. The peer that was given the
    /// piece no longer has it, whatever comes of the data.
    pub fn try_take_piece(&mut self, piece: usize, data: &[u8]) -> (outcome: Option<PieceOutcome>)
        requires
            engine_ok(old(self).state()),
            data@.len() <= MAX_HASHED_LEN,
        ensures
            match outcome {
                Some(PieceOutcome::Complete(spans, progress)) => {
                    &&& takable(old(self).state().transfer, piece, data@)
                    &&& digest_matches(old(self).state().transfer, piece as int, data@)
                    &&& final(self).state() == taken(old(self).state(), piece, data@)
                    &&& spans@ == write_spans(
                        old(self).state().transfer.sizes,
                        old(self).state().transfer.pieces[piece as int],
                        data@.len() as int,
                    )
                    &&& progress == progress_of(final(self).state().transfer)
                },
                Some(PieceOutcome::Invalid) => {
                    &&& takable(old(self).state().transfer, piece, data@)
                    &&& !digest_matches(old(self).state().transfer, piece as int, data@)
                    &&& final(self).state() == taken(old(self).state(), piece, data@)
                },
                None => !takable(old(self).state().transfer, piece, data@) && final(self).state()
                    == if piece < old(self).state().transfer.pieces.len() {
                    EngineState {
                        controls: released(old(self).state().controls, piece),
                        ..old(self).state()
                    }
                } else {
                    old(self).state()
                },
            },
            engine_ok(final(self).state()),
    {
        let ghost before = self.state();
        if piece >= self.transfer.piece_count() {
            return None;
        }
        match self.holder_of(piece) {
            Some(i) => {
                let ghost control = before.controls[i as int];
                self.peers_controls[i].release(piece);
                proof {
                    let holder = choose|k: int| first_holder(before.controls, piece, k);
                    assert(first_holder(before.controls, piece, i as int));
                    assert(holds_piece(before.controls[holder].assigned_pieces, piece));
                    assert(holds_piece(before.controls[i as int].assigned_pieces, piece));
                    assert(holder == i);
                    let changed = self.peers_controls@[i as int]@;
                    assert(self.state().controls =~= released(before.controls, piece));
                    lemma_without_piece(control.assigned_pieces, piece);
                    assert forall|k: int|
                        engine_ok(before) && 0 <= k
                            < changed.assigned_pieces.len() implies (
                    #[trigger] changed.assigned_pieces[k]).0 < before.transfer.pieces.len() by {
                        let old_place = choose|m: int|
                            0 <= m < control.assigned_pieces.len() && control.assigned_pieces[m]
                                == changed.assigned_pieces[k];
                        assert(before.controls[i as int].assigned_pieces[old_place].0
                            < before.transfer.pieces.len());
                    }
                    lemma_update_keeps_engine_ok(before, i as int, changed, before.transfer);
                }
            },
            None => {
                proof {
                    if exists|k: int| first_holder(before.controls, piece, k) {
                        let k = choose|k: int| first_holder(before.controls, piece, k);
                        assert(holds_piece(before.controls[k].assigned_pieces, piece));
                    }
                }
            },
        }
        let ghost middle = self.state();
        assert(middle =~= EngineState { controls: released(before.controls, piece), ..before });
        assert(engine_ok(middle));
        match self.transfer.add_complete_piece(piece, data) {
            Some(Added::Complete(spans)) => {
                let progress = self.transfer.get_progress();
                proof {
                    lemma_transfer_keeps_engine_ok(middle, self.state().transfer);
                }
                Some(PieceOutcome::Complete(spans, progress))
            },
            Some(Added::Invalid) => {
                self.transfer.unassign_piece(piece);
                proof {
                    lemma_transfer_keeps_engine_ok(middle, self.state().transfer);
                }
                Some(PieceOutcome::Invalid)
            },
            None => {
                proof {
                    lemma_transfer_keeps_engine_ok(middle, self.state().transfer);
                }
                None
            },
        }
    }

    /// What the peers are told when the client stops: each of them, by its address, is
    /// to disconnect.
    pub fn stop(&self) -> (commands: Vec<(PeerAddress, PeerCommand)>)
        ensures
            commands@.len() == self.state().controls.len(),
            forall|i: int|
                0 <= i < commands@.len() ==> (#[trigger] commands@[i]).0
                    == self.state().controls[i].address && commands@[i].1@
                    == CommandValue::Disconnect,
    {
        let ghost controls = self.state().controls;
        let mut commands: Vec<(PeerAddress, PeerCommand)> = Vec::new();
        let mut i: usize = 0;
        while i < self.peers_controls.len()
            invariant
                i <= self.peers_controls@.len(),
                controls == self.state().controls,
                commands@.len() == i,
                forall|k: int|
                    0 <= k < commands@.len() ==> (#[trigger] commands@[k]).0 == controls[k].address
                        && commands@[k].1@ == CommandValue::Disconnect,
            decreases self.peers_controls@.len() - i,
        {
            assert(controls[i as int] == self.peers_controls@[i as int]@);
            commands.push((self.peers_controls[i].address, PeerCommand::Disconnect));
            i = i + 1;
        }
        commands
    }

    /// Whether the torrent has become complete since this was last asked.
    pub fn newly_complete(&mut self) -> (newly: bool)
        ensures
            newly == (all_complete(old(self).state().transfer) && !old(self).state().complete),
            final(self).state() == (EngineState {
                complete: old(self).state().complete || newly,
                ..old(self).state()
            }),
            engine_ok(old(self).state()) ==> engine_ok(final(self).state()),
    {
        let newly = self.transfer.is_complete() && !self.complete;
        if newly {
            self.complete = true;
        }
        newly
    }

    /// Lets go of the peers that have left, those whose channel is closed among
    /// them, and frees the pieces that they were given.
    pub fn purge_peers_list(&mut self, closed: &Vec<bool>)
        requires
            engine_ok(old(self).state()),
            closed@.len() == old(self).state().controls.len(),
        ensures
            final(self).state() == purged(old(self).state(), closed@),
            engine_ok(final(self).state()),
    {
        let ghost before = self.state();
        let ghost all = before.controls;
        let mut i: usize = 0;
        let mut seen: usize = 0;
        let count: usize = self.peers_controls.len();
        proof {
            assert(kept(all, closed@, 0) =~= Seq::empty());
            assert(all.skip(0) =~= all);
            assert(self.state().controls =~= kept(all, closed@, 0) + all.skip(0));
            assert(freed(before.transfer, all, closed@, 0) =~= before.transfer.pieces);
        }
        while seen < count
            invariant
                all == before.controls,
                count == all.len(),
                closed@.len() == count,
                seen <= count,
                i <= seen,
                engine_ok(before),
                engine_ok(self.state()),
                i == kept(all, closed@, seen as int).len(),
                self.state().complete == before.complete,
                self.state().controls == kept(all, closed@, seen as int) + all.skip(seen as int),
                self.state().transfer == (TransferState {
                    pieces: freed(before.transfer, all, closed@, seen as int),
                    ..before.transfer
                }),
            decreases count - seen,
        {
            let ghost now = self.state();
            let ghost control = all[seen as int];
            assert(now.controls.len() == i + (count - seen));
            assert(now.controls[i as int] == control);
            assert(now.controls == control_values(self.peers_controls@));
            assert(now.controls.len() == self.peers_controls@.len());
            assert(now.controls[i as int] == self.peers_controls@[i as int]@);
            let left = match self.peers_controls[i].status {
                PeerStatus::Disconnected => true,
                _ => false,
            };
            if closed[seen] || left {
                let removed = self.peers_controls.remove(i);
                assert(removed@ == control);
                assert(self.state().controls =~= now.controls.remove(i as int));
                assert forall|k: int|
                    0 <= k < removed.assigned_pieces@.len() implies (
                #[trigger] removed.assigned_pieces@[k]).0
                    < self.state().transfer.pieces.len() by {
                    assert(now.controls[i as int].assigned_pieces[k].0
                        < now.transfer.pieces.len());
                }
                self.free_pieces(&removed.assigned_pieces);
                proof {
                    assert(self.state().controls =~= kept(all, closed@, seen + 1) + all.skip(
                        seen + 1,
                    ));
                    lemma_freed_step(before.transfer, all, closed@, seen as int);
                    assert(self.state().transfer.pieces =~= freed(
                        before.transfer,
                        all,
                        closed@,
                        seen + 1,
                    ));
                    lemma_remove_keeps_engine_ok(now, i as int, self.state().transfer);
                }
            } else {
                proof {
                    assert(self.state().controls =~= kept(all, closed@, seen + 1) + all.skip(
                        seen + 1,
                    ));
                    lemma_freed_step(before.transfer, all, closed@, seen as int);
                    assert(self.state().transfer.pieces =~= freed(
                        before.transfer,
                        all,
                        closed@,
                        seen + 1,
                    ));
                }
                i = i + 1;
            }
            seen = seen + 1;
        }
        assert(self.state().controls =~= kept(all, closed@, count as int));
        assert(self.state() =~= purged(before, closed@));
    }

    /// Frees pieces for any peer.
    fn free_pieces(&mut self, pieces: &Vec<(usize, u64)>)
        requires
            transfer_ok(old(self).state().transfer),
            forall|k: int|
                0 <= k < pieces@.len() ==> (#[trigger] pieces@[k]).0 < old(
                    self,
                ).state().transfer.pieces.len(),
        ensures
            final(self).state() == (EngineState {
                transfer: TransferState {
                    pieces: pieces_freed(old(self).state().transfer.pieces, pieces@),
                    ..old(self).state().transfer
                },
                ..old(self).state()
            }),
            transfer_ok(final(self).state().transfer),
    {
        let ghost before = self.state();
        let mut k: usize = 0;
        assert(pieces_freed(before.transfer.pieces, pieces@.take(0))
            =~= before.transfer.pieces);
        while k < pieces.len()
            invariant
                k <= pieces@.len(),
                forall|m: int|
                    0 <= m < pieces@.len() ==> (#[trigger] pieces@[m]).0
                        < before.transfer.pieces.len(),
                transfer_ok(self.state().transfer),
                self.state() == (EngineState {
                    transfer: TransferState {
                        pieces: pieces_freed(before.transfer.pieces, pieces@.take(k as int)),
                        ..before.transfer
                    },
                    ..before
                }),
            decreases pieces@.len() - k,
        {
            let ghost now = self.state().transfer.pieces;
            let piece: usize = pieces[k].0;
            self.transfer.unassign_piece(piece);
            proof {
                let shorter = pieces@.take(k as int);
                let longer = pieces@.take(k + 1);
                assert forall|m: int| 0 <= m < now.len() implies self.state().transfer.pieces[m]
                    == pieces_freed(before.transfer.pieces, longer)[m] by {
                    lemma_holds_take(pieces@, m as usize, k as int);
                }
                assert(self.state().transfer.pieces =~= pieces_freed(
                    before.transfer.pieces,
                    longer,
                ));
            }
            k = k + 1;
        }
        assert(pieces@.take(k as int) =~= pieces@);
    }
}

/// The first peer that was given a piece.
pub open spec fn first_holder(controls: Seq<ControlValue>, piece: usize, i: int) -> bool {
    &&& 0 <= i < controls.len()
    &&& holds_piece(controls[i].assigned_pieces, piece)
    &&& forall|j: int|
        0 <= j < i ==> !holds_piece((#[trigger] controls[j]).assigned_pieces, piece)
}

/// The peers once the first one that was given a piece no longer has to bring
/// it.
pub open spec fn released(controls: Seq<ControlValue>, piece: usize) -> Seq<ControlValue> {
    if exists|i: int| first_holder(controls, piece, i) {
        let i = choose|i: int| first_holder(controls, piece, i);
        controls.update(
            i,
            ControlValue {
                assigned_pieces: without_piece(controls[i].assigned_pieces, piece),
                ..controls[i]
            },
        )
    } else {
        controls
    }
}

/// There is such a piece, and where the data is the piece it can be added.
pub open spec fn takable(transfer: TransferState, piece: usize, data: Seq<u8>) -> bool {
    &&& piece < transfer.pieces.len()
    &&& digest_matches(transfer, piece as int, data) ==> addable(transfer, piece as int, data)
}

/// The engine after a peer brought the data of a piece: the piece is complete, or
/// any peer may bring it again.
pub open spec fn taken(state: EngineState, piece: usize, data: Seq<u8>) -> EngineState {
    EngineState {
        transfer: if digest_matches(state.transfer, piece as int, data) {
            piece_added(state.transfer, piece as int, data)
        } else {
            unassigned(state.transfer, piece as int)
        },
        controls: released(state.controls, piece),
        ..state
    }
}

/// The peer has left.
pub open spec fn has_left(control: ControlValue, closed: bool) -> bool {
    closed || control.status is Disconnected
}

/// The peers that have not left, out of the first `count`.
pub open spec fn kept(controls: Seq<ControlValue>, closed: Seq<bool>, count: int) -> Seq<
    ControlValue,
>
    decreases count,
{
    if count <= 0 {
        Seq::empty()
    } else {
        let before = kept(controls, closed, count - 1);
        if has_left(controls[count - 1], closed[count - 1]) {
            before
        } else {
            before.push(controls[count - 1])
        }
    }
}

/// A peer that has left, out of the first `count`, was given the piece.
pub open spec fn left_behind(
    controls: Seq<ControlValue>,
    closed: Seq<bool>,
    count: int,
    piece: usize,
) -> bool {
    exists|i: int|
        0 <= i < count && has_left(#[trigger] controls[i], closed[i]) && holds_piece(
            controls[i].assigned_pieces,
            piece,
        )
}

/// The pieces, those free that a peer has left behind.
pub open spec fn freed(
    transfer: TransferState,
    controls: Seq<ControlValue>,
    closed: Seq<bool>,
    count: int,
) -> Seq<TransferPiece> {
    Seq::new(
        transfer.pieces.len(),
        |m: int|
            if left_behind(controls, closed, count, m as usize) {
                TransferPiece { assigned_to: None, ..transfer.pieces[m] }
            } else {
                transfer.pieces[m]
            },
    )
}

/// The engine without the peers that have left.
pub open spec fn purged(state: EngineState, closed: Seq<bool>) -> EngineState {
    let count = state.controls.len() as int;
    EngineState {
        transfer: TransferState {
            pieces: freed(state.transfer, state.controls, closed, count),
            ..state.transfer
        },
        controls: kept(state.controls, closed, count),
        ..state
    }
}

/// The pieces, those free that are in a list.
pub open spec fn pieces_freed(pieces: Seq<TransferPiece>, list: Seq<(usize, u64)>) -> Seq<
    TransferPiece,
> {
    Seq::new(
        pieces.len(),
        |m: int|
            if holds_piece(list, m as usize) {
                TransferPiece { assigned_to: None, ..pieces[m] }
            } else {
                pieces[m]
            },
    )
}

proof fn lemma_holds_take(list: Seq<(usize, u64)>, piece: usize, k: int)
    requires
        0 <= k < list.len(),
    ensures
        holds_piece(list.take(k + 1), piece) <==> holds_piece(list.take(k), piece) || list[k].0
            == piece,
{
    let shorter = list.take(k);
    let longer = list.take(k + 1);
    if holds_piece(longer, piece) {
        let m = choose|m: int| 0 <= m < longer.len() && (#[trigger] longer[m]).0 == piece;
        if m < k {
            assert(shorter[m].0 == piece);
        }
    }
    if holds_piece(shorter, piece) {
        let m = choose|m: int| 0 <= m < shorter.len() && (#[trigger] shorter[m]).0 == piece;
        assert(longer[m].0 == piece);
    }
    if list[k].0 == piece {
        assert(longer[k].0 == piece);
    }
}

proof fn lemma_freed_step(
    transfer: TransferState,
    controls: Seq<ControlValue>,
    closed: Seq<bool>,
    count: int,
)
    requires
        0 <= count < controls.len(),
    ensures
        forall|piece: usize| #[trigger]
            left_behind(controls, closed, count + 1, piece) <==> left_behind(
                controls,
                closed,
                count,
                piece,
            ) || (has_left(controls[count], closed[count]) && holds_piece(
                controls[count].assigned_pieces,
                piece,
            )),
{
    assert forall|piece: usize| #[trigger]
        left_behind(controls, closed, count + 1, piece) <==> left_behind(
            controls,
            closed,
            count,
            piece,
        ) || (has_left(controls[count], closed[count]) && holds_piece(
            controls[count].assigned_pieces,
            piece,
        )) by {
        if left_behind(controls, closed, count, piece) {
            let i = choose|i: int|
                0 <= i < count && has_left(#[trigger] controls[i], closed[i]) && holds_piece(
                    controls[i].assigned_pieces,
                    piece,
                );
            assert(has_left(controls[i], closed[i]));
        }
        if has_left(controls[count], closed[count]) && holds_piece(
            controls[count].assigned_pieces,
            piece,
        ) {
            assert(left_behind(controls, closed, count + 1, piece));
        }
    }
}

proof fn lemma_transfer_keeps_engine_ok(state: EngineState, transfer: TransferState)
    requires
        engine_ok(state),
        transfer_ok(transfer),
        transfer.pieces.len() == state.transfer.pieces.len(),
    ensures
        engine_ok(EngineState { transfer, ..state }),
{
    let after = EngineState { transfer, ..state };
    assert forall|a: int, k: int|
        0 <= a < after.controls.len() && 0 <= k < after.controls[a].assigned_pieces.len() implies (
    #[trigger] after.controls[a].assigned_pieces[k]).0 < after.transfer.pieces.len() by {
        assert(state.controls[a].assigned_pieces[k].0 < state.transfer.pieces.len());
    }
}

proof fn lemma_remove_keeps_engine_ok(state: EngineState, i: int, transfer: TransferState)
    requires
        engine_ok(state),
        0 <= i < state.controls.len(),
        transfer_ok(transfer),
        transfer.pieces.len() == state.transfer.pieces.len(),
    ensures
        engine_ok(EngineState { transfer, controls: state.controls.remove(i), ..state }),
{
    let after = EngineState { transfer, controls: state.controls.remove(i), ..state };
    assert forall|a: int, k: int|
        0 <= a < after.controls.len() && 0 <= k < after.controls[a].assigned_pieces.len() implies (
    #[trigger] after.controls[a].assigned_pieces[k]).0 < after.transfer.pieces.len() by {
        let b = if a < i {
            a
        } else {
            a + 1
        };
        assert(after.controls[a] == state.controls[b]);
        assert(state.controls[b].assigned_pieces[k].0 < state.transfer.pieces.len());
    }
    assert forall|a: int, b: int| 0 <= a < b < after.controls.len() implies (
    #[trigger] after.controls[a]).address != (#[trigger] after.controls[b]).address by {
        let c = if a < i {
            a
        } else {
            a + 1
        };
        let d = if b < i {
            b
        } else {
            b + 1
        };
        assert(state.controls[c].address != state.controls[d].address);
    }
}

proof fn lemma_without_piece(pieces: Seq<(usize, u64)>, piece: usize)
    ensures
        forall|k: int|
            0 <= k < without_piece(pieces, piece).len() ==> pieces.contains(
                #[trigger] without_piece(pieces, piece)[k],
            ),
{
    let after = without_piece(pieces, piece);
    assert forall|k: int| 0 <= k < after.len() implies pieces.contains(#[trigger] after[k]) by {
        if holds_piece(pieces, piece) {
            lemma_first_holding_exists(pieces, piece, pieces.len() as int);
            let at = choose|j: int| first_holding(pieces, piece, j);
            let old_place = if k < at {
                k
            } else {
                k + 1
            };
            assert(pieces[old_place] == after[k]);
        } else {
            assert(pieces[k] == after[k]);
        }
    }
}

proof fn lemma_first_holding_exists(pieces: Seq<(usize, u64)>, piece: usize, limit: int)
    requires
        0 <= limit <= pieces.len(),
        exists|k: int| 0 <= k < limit && (#[trigger] pieces[k]).0 == piece,
    ensures
        exists|k: int| first_holding(pieces, piece, k),
    decreases limit,
{
    let k = choose|k: int| 0 <= k < limit && (#[trigger] pieces[k]).0 == piece;
    if forall|j: int| 0 <= j < k ==> (#[trigger] pieces[j]).0 != piece {
        assert(first_holding(pieces, piece, k));
    } else {
        lemma_first_holding_exists(pieces, piece, k);
    }
}

/// A copy of pieces that are given to a peer.
fn copy_pieces(pieces: &Vec<(usize, u64)>) -> (copy: Vec<(usize, u64)>)
    ensures
        copy@ == pieces@,
{
    let mut copy: Vec<(usize, u64)> = Vec::with_capacity(pieces.len());
    let mut i: usize = 0;
    while i < pieces.len()
        invariant
            i <= pieces@.len(),
            copy@ == pieces@.take(i as int),
        decreases pieces@.len() - i,
    {
        copy.push(pieces[i]);
        i = i + 1;
        assert(copy@ =~= pieces@.take(i as int));
    }
    assert(copy@ =~= pieces@);
    copy
}

/// Pieces that are given, behind those that were.
pub open spec fn give_on(
    given: Seq<(usize, u64)>,
    more: Option<(TransferState, Seq<(usize, u64)>)>,
) -> Option<(TransferState, Seq<(usize, u64)>)> {
    match more {
        Some((after, rest)) => Some((after, given + rest)),
        None => None,
    }
}

/// What the engine does for a peer.
pub enum TaskValue {
    Rest,
    Command(CommandValue),
    SendPiece(usize, Seq<Span>),
}

/// A task as it is meant.
pub open spec fn task_value(task: PeerTask) -> TaskValue {
    match task {
        PeerTask::Rest => TaskValue::Rest,
        PeerTask::Command(command) => TaskValue::Command(command@),
        PeerTask::SendPiece(piece, spans) => TaskValue::SendPiece(piece, spans@),
    }
}

/// What the engine does for a peer by what it knows of it: it shows interest in
/// one that has a free piece, gives pieces to one that is ready, and reads a
/// piece for one that wants it.
pub open spec fn served(state: EngineState, i: int) -> Option<(EngineState, TaskValue)> {
    let control = state.controls[i];
    match control.status {
        PeerStatus::ConnectionEstablished => if control.available_pieces.len() > 0 && !search_ok(
            state.transfer.pieces,
            control.available_pieces,
        ) {
            None
        } else if exists|k: int|
            first_suiting(state.transfer.pieces, control.available_pieces, k) {
            Some((state, TaskValue::Command(CommandValue::SendInterested)))
        } else {
            Some((state, TaskValue::Rest))
        },
        PeerStatus::Ready => match give(
            state.transfer,
            control.available_pieces,
            control.address,
            PIECES_PER_PEER as nat,
        ) {
            Some((transfer, pieces)) => if pieces.len() == 0 {
                Some((EngineState { transfer, ..state }, TaskValue::Rest))
            } else {
                Some(
                    (
                        EngineState {
                            transfer,
                            controls: state.controls.update(
                                i,
                                ControlValue { assigned_pieces: pieces, ..control },
                            ),
                            ..state
                        },
                        TaskValue::Command(CommandValue::RequestPiece { pieces }),
                    ),
                )
            },
            None => None,
        },
        PeerStatus::RequestedPiece(piece) => if piece < state.transfer.pieces.len()
            && piece_readable(state.transfer, piece as int) {
            Some((state, TaskValue::SendPiece(piece, piece_spans(state.transfer, piece as int))))
        } else {
            None
        },
        _ => Some((state, TaskValue::Rest)),
    }
}

/// What holds of the engine holds when a peer changes that keeps its address and
/// holds pieces of the torrent.
proof fn lemma_update_keeps_engine_ok(
    state: EngineState,
    i: int,
    control: ControlValue,
    transfer: TransferState,
)
    requires
        0 <= i < state.controls.len(),
        control.address == state.controls[i].address,
        transfer.pieces.len() == state.transfer.pieces.len(),
        engine_ok(state) && transfer_ok(transfer) ==> forall|k: int|
            0 <= k < control.assigned_pieces.len() ==> (#[trigger] control.assigned_pieces[k]).0
                < state.transfer.pieces.len(),
    ensures
        engine_ok(state) && transfer_ok(transfer) ==> engine_ok(
            EngineState { transfer, controls: state.controls.update(i, control), ..state },
        ),
{
    let after = EngineState { transfer, controls: state.controls.update(i, control), ..state };
    if engine_ok(state) && transfer_ok(transfer) {
        assert forall|a: int, k: int|
            0 <= a < after.controls.len() && 0 <= k
                < after.controls[a].assigned_pieces.len() implies (
        #[trigger] after.controls[a].assigned_pieces[k]).0 < after.transfer.pieces.len() by {
            if a != i {
                assert(after.controls[a] == state.controls[a]);
                assert(state.controls[a].assigned_pieces[k].0 < state.transfer.pieces.len());
            } else {
                assert(control.assigned_pieces[k].0 < state.transfer.pieces.len());
            }
        }
    }
}

/// The pieces that a peer is given are at most as many as were asked for, no two
/// of them are the same, the peer has each of them, and each was free and is now
/// left to the peer. Every other piece is as it was.
pub proof fn lemma_give(
    transfer: TransferState,
    available: Seq<bool>,
    address: PeerAddress,
    count: nat,
)
    requires
        transfer_ok(transfer),
        give(transfer, available, address, count) is Some,
    ensures
        ({
            let (after, list) = give(transfer, available, address, count).unwrap();
            &&& list.len() <= count
            &&& transfer_ok(after)
            &&& after.pieces.len() == transfer.pieces.len()
            &&& forall|k: int|
                0 <= k < list.len() ==> {
                    let piece = (#[trigger] list[k]).0 as int;
                    &&& piece < transfer.pieces.len()
                    &&& piece < available.len()
                    &&& available[piece]
                    &&& free(transfer.pieces[piece])
                    &&& after.pieces[piece].assigned_to == Some(address)
                }
            &&& forall|k: int, m: int|
                0 <= k < m < list.len() ==> (#[trigger] list[k]).0 != (#[trigger] list[m]).0
            &&& forall|p: int|
                0 <= p < transfer.pieces.len() && !holds_piece(list, p as usize)
                    ==> #[trigger] after.pieces[p] == transfer.pieces[p]
        }),
    decreases count,
{
    let (after, list) = give(transfer, available, address, count).unwrap();
    if count > 0 && available.len() > 0 && search_ok(transfer.pieces, available) && (exists|i: int|
        first_suiting(transfer.pieces, available, i)) {
        let i = choose|i: int| first_suiting(transfer.pieces, available, i);
        let piece = transfer.pieces[i];
        let middle = assigned(transfer, i, address);
        lemma_give(middle, available, address, (count - 1) as nat);
        let (same, rest) = give(middle, available, address, (count - 1) as nat).unwrap();
        assert(list =~= seq![(piece.idx, piece.length as u64)] + rest);
        assert(suits(transfer.pieces, available, i));
        assert forall|k: int| 0 <= k < rest.len() implies (#[trigger] rest[k]).0 != i by {
            assert(free(middle.pieces[rest[k].0 as int]));
        }
        assert(!holds_piece(rest, i as usize));
        assert(after.pieces[i] == middle.pieces[i]);
        assert forall|k: int| 0 <= k < list.len() implies {
            let given = (#[trigger] list[k]).0 as int;
            &&& given < transfer.pieces.len()
            &&& given < available.len()
            &&& available[given]
            &&& free(transfer.pieces[given])
            &&& after.pieces[given].assigned_to == Some(address)
        } by {
            if k > 0 {
                assert(list[k] == rest[k - 1]);
                assert(free(middle.pieces[rest[k - 1].0 as int]));
            }
        }
        assert forall|k: int, m: int| 0 <= k < m < list.len() implies (#[trigger] list[k]).0 != (
        #[trigger] list[m]).0 by {
            assert(list[m] == rest[m - 1]);
            if k > 0 {
                assert(list[k] == rest[k - 1]);
            }
        }
        assert forall|p: int|
            0 <= p < transfer.pieces.len() && !holds_piece(
                list,
                p as usize,
            ) implies #[trigger] after.pieces[p] == transfer.pieces[p] by {
            assert(list[0].0 == i);
            if holds_piece(rest, p as usize) {
                let k = choose|k: int| 0 <= k < rest.len() && (#[trigger] rest[k]).0 == p as usize;
                assert(list[k + 1].0 == p as usize);
            }
        }
    }
}

/// Pieces of which one more is given and then all are free again are as they would be
/// without it.
proof fn lemma_give_and_free(
    pieces: Seq<TransferPiece>,
    given: Seq<(usize, u64)>,
    place: usize,
    address: PeerAddress,
    list: Seq<(usize, u64)>,
)
    requires
        place < pieces.len() <= usize::MAX,
        free(pieces[place as int]),
        list.len() == given.len() + 1,
        list.take(given.len() as int) == given,
        list.last().0 == place,
    ensures
        pieces_freed(
            pieces.update(
                place as int,
                TransferPiece { assigned_to: Some(address), ..pieces[place as int] },
            ),
            list,
        ) == pieces_freed(pieces, given),
{
    let after = pieces.update(
        place as int,
        TransferPiece { assigned_to: Some(address), ..pieces[place as int] },
    );
    let count = given.len() as int;
    assert(list.take(count + 1) =~= list);
    assert forall|m: int| 0 <= m < pieces.len() implies pieces_freed(after, list)[m]
        == pieces_freed(pieces, given)[m] by {
        lemma_holds_take(list, m as usize, count);
    }
    assert(pieces_freed(after, list) =~= pieces_freed(pieces, given));
}

/// A peer is asked only for pieces that it can bring: the request names one to five
/// pieces, no two the same, each of which the peer has, and each of which was neither
/// complete nor given to anyone. They are noted for the peer, and each of them is
/// given to it.
pub proof fn lemma_request_task(state: EngineState, i: int)
    requires
        engine_ok(state),
        0 <= i < state.controls.len(),
        served(state, i) matches Some((after, TaskValue::Command(CommandValue::RequestPiece { .. }))),
    ensures
        served(state, i) matches Some(
            (after, TaskValue::Command(CommandValue::RequestPiece { pieces })),
        ) && {
            &&& 1 <= pieces.len() <= PIECES_PER_PEER
            &&& after.controls[i].assigned_pieces == pieces
            &&& forall|k: int, m: int|
                0 <= k < m < pieces.len() ==> (#[trigger] pieces[k]).0 != (#[trigger] pieces[m]).0
            &&& forall|k: int|
                0 <= k < pieces.len() ==> {
                    let piece = (#[trigger] pieces[k]).0 as int;
                    &&& piece < state.transfer.pieces.len()
                    &&& state.controls[i].available_pieces[piece]
                    &&& !state.transfer.pieces[piece].completed
                    &&& state.transfer.pieces[piece].assigned_to is None
                    &&& after.transfer.pieces[piece].assigned_to == Some(state.controls[i].address)
                }
        },
{
    let control = state.controls[i];
    lemma_give(
        state.transfer,
        control.available_pieces,
        control.address,
        PIECES_PER_PEER as nat,
    );
}

/// After a purge no peer is left that has left, and every piece that such a peer
/// was given is free for others.
pub proof fn lemma_purged(state: EngineState, closed: Seq<bool>)
    requires
        engine_ok(state),
        closed.len() == state.controls.len(),
    ensures
        forall|i: int|
            0 <= i < purged(state, closed).controls.len() ==> !((#[trigger] purged(
                state,
                closed,
            ).controls[i]).status is Disconnected),
        forall|i: int, k: int|
            0 <= i < state.controls.len() && has_left(state.controls[i], closed[i]) && 0 <= k
                < state.controls[i].assigned_pieces.len() ==> purged(
                state,
                closed,
            ).transfer.pieces[(#[trigger] state.controls[i].assigned_pieces[k]).0 as int].assigned_to
                is None,
{
    lemma_kept(state.controls, closed, state.controls.len() as int);
    assert forall|i: int, k: int|
        0 <= i < state.controls.len() && has_left(state.controls[i], closed[i]) && 0 <= k
            < state.controls[i].assigned_pieces.len() implies purged(
        state,
        closed,
    ).transfer.pieces[(#[trigger] state.controls[i].assigned_pieces[k]).0 as int].assigned_to
        is None by {
        let piece = state.controls[i].assigned_pieces[k].0;
        assert(holds_piece(state.controls[i].assigned_pieces, piece));
        assert(left_behind(state.controls, closed, state.controls.len() as int, piece));
    }
}

proof fn lemma_kept(controls: Seq<ControlValue>, closed: Seq<bool>, count: int)
    requires
        0 <= count <= controls.len(),
    ensures
        forall|i: int|
            0 <= i < kept(controls, closed, count).len() ==> !((#[trigger] kept(
                controls,
                closed,
                count,
            )[i]).status is Disconnected),
    decreases count,
{
    if count > 0 {
        lemma_kept(controls, closed, count - 1);
    }
}

/// Adding peers keeps those that are known as they are, and knows all the others
/// afterwards.
pub proof fn lemma_with_peers(controls: Seq<ControlValue>, peers: Seq<PeerAddress>)
    ensures
        controls.len() <= with_peers(controls, peers).len(),
        with_peers(controls, peers).take(controls.len() as int) == controls,
        forall|i: int|
            0 <= i < peers.len() ==> has_peer(with_peers(controls, peers), #[trigger] peers[i]),
    decreases peers.len(),
{
    if peers.len() > 0 {
        let shorter = peers.drop_last();
        lemma_with_peers(controls, shorter);
        let before = with_peers(controls, shorter);
        let after = with_peers(controls, peers);
        assert(after.take(controls.len() as int) =~= before.take(controls.len() as int));
        assert forall|i: int| 0 <= i < peers.len() implies has_peer(after, #[trigger] peers[i]) by {
            if i < shorter.len() {
                assert(has_peer(before, shorter[i]));
                let k = choose|k: int|
                    0 <= k < before.len() && (#[trigger] before[k]).address == shorter[i];
                assert(after[k].address == peers[i]);
            } else if !has_peer(before, peers[i]) {
                assert(after[before.len() as int].address == peers[i]);
            }
        }
    } else {
        assert(controls.take(controls.len() as int) =~= controls);
    }
}

} // verus!
