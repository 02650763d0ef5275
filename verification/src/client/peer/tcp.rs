//! A connection to a peer.
use vstd::prelude::*;

use crate::bits::{byte_count, packed, unpacked};
use crate::client::peer::message::read_word;
use crate::client::peer::{Bitfield, Message, PeerStatus, RawMessage, frame_message, is_frame};
use crate::client::piece::{
    Piece, PieceState, emptied, is_whole, next_block, with_bytes,
};
use crate::engine::peer::message::word_at;
use crate::engine::peer::tcp::protocol_name;
use crate::hashing::MAX_HASHED_LEN;
use crate::scan::{copy_bytes, copy_range};
use crate::wire::{
    be_bytes, be_value, lemma_be_bytes_len, lemma_be_round_trip, lemma_byte_ranges, push_be,
    slice_get_u32,
};

verus! {

/// How long a peer may be silent, in nanoseconds.
pub const SILENCE_LIMIT: u128 = 10_000_000_000;

/// The state of a connection.
#[verifier::ext_equal]
pub struct TcpState {
    pub status: PeerStatus,
    pub bitfield_peer: Seq<bool>,
    pub requested: Option<usize>,
    pub waiting_for_response: bool,
    /// In nanoseconds.
    pub last_message_time: u128,
}

/// The pieces as they are known.
pub open spec fn piece_states(pieces: Seq<Piece>) -> Seq<PieceState> {
    pieces.map_values(|p: Piece| p@)
}

/// There can be room for each of the pieces.
pub open spec fn pieces_ok(pieces: Seq<PieceState>) -> bool {
    forall|i: int| 0 <= i < pieces.len() ==> (#[trigger] pieces[i]).piece_len <= isize::MAX
}

/// What is to be done after a message.
pub enum OutcomeValue {
    /// Nothing.
    Keep,
    /// Drop the peer.
    Drop,
    /// Read the piece that begins at the place in the file, and send a block of it.
    Serve { piece: u32, file: usize, position: usize, block_offset: usize, block_length: usize },
    /// Write the piece to the place in the file.
    Write { file: usize, position: usize, data: Seq<u8> },
}

/// What a message makes of a connection and of the pieces.
#[verifier::ext_equal]
pub struct TcpStep {
    pub state: TcpState,
    pub pieces: Seq<PieceState>,
    pub outcome: OutcomeValue,
}

/// The message holds what it needs, and speaks of pieces that there are.
pub open spec fn message_ok(
    state: TcpState,
    message: RawMessage,
    client: Seq<bool>,
    pieces: Seq<PieceState>,
) -> bool {
    match message {
        RawMessage::Have(data) => data.len() >= 4 && word_at(data, 0) < state.bitfield_peer.len(),
        RawMessage::Request(data) => data.len() >= 12 && word_at(data, 0) < client.len(),
        RawMessage::Piece(data) => {
            &&& data.len() >= 8
            &&& word_at(data, 0) < pieces.len() ==> pieces[word_at(
                data,
                0,
            ) as int].piece_data.len() + data.len() - 8 <= MAX_HASHED_LEN
        },
        RawMessage::Cancel(data) => data.len() >= 12,
        _ => true,
    }
}

/// A piece once a block of it came: where the bytes are enough the piece is
/// complete, or they are thrown away.
pub open spec fn piece_received(piece: PieceState, block: Seq<u8>) -> PieceState {
    let received = with_bytes(piece, block);
    if received.piece_data.len() >= received.piece_len {
        if is_whole(received) {
            PieceState { finished: true, requested: false, ..received }
        } else {
            emptied(received)
        }
    } else {
        received
    }
}

/// What a block of a piece makes of a connection and of the pieces. A block that
/// was not asked for has the peer dropped.
pub open spec fn on_piece(state: TcpState, data: Seq<u8>, pieces: Seq<PieceState>) -> TcpStep {
    let idx = word_at(data, 0) as int;
    let block = data.skip(8);
    if state.requested != Some(word_at(data, 0) as usize) {
        TcpStep { state, pieces, outcome: OutcomeValue::Drop }
    } else if idx >= pieces.len() {
        TcpStep {
            state: TcpState { requested: None, waiting_for_response: false, ..state },
            pieces,
            outcome: OutcomeValue::Keep,
        }
    } else {
        let received = with_bytes(pieces[idx], block);
        let enough = received.piece_data.len() >= received.piece_len;
        TcpStep {
            state: TcpState {
                requested: if enough {
                    None
                } else {
                    state.requested
                },
                waiting_for_response: false,
                ..state
            },
            pieces: pieces.update(idx, piece_received(pieces[idx], block)),
            outcome: if enough && is_whole(received) {
                OutcomeValue::Write {
                    file: received.start_file,
                    position: received.start_position,
                    data: received.piece_data,
                }
            } else {
                OutcomeValue::Keep
            },
        }
    }
}

/// What a message makes of a connection and of the pieces.
pub open spec fn on_message(
    state: TcpState,
    message: RawMessage,
    client: Seq<bool>,
    pieces: Seq<PieceState>,
) -> TcpStep {
    let keep = OutcomeValue::Keep;
    match message {
        RawMessage::KeepAlive => TcpStep { state, pieces, outcome: keep },
        RawMessage::Choke => TcpStep {
            state: TcpState {
                status: PeerStatus { client_choked: true, ..state.status },
                ..state
            },
            pieces,
            outcome: keep,
        },
        RawMessage::Unchoke => TcpStep {
            state: TcpState {
                status: PeerStatus { client_choked: false, ..state.status },
                ..state
            },
            pieces,
            outcome: keep,
        },
        RawMessage::Interested => TcpStep {
            state: TcpState {
                status: PeerStatus { peer_interested: true, ..state.status },
                ..state
            },
            pieces,
            outcome: keep,
        },
        RawMessage::NotInterested => TcpStep {
            state: TcpState {
                status: PeerStatus { peer_interested: false, ..state.status },
                ..state
            },
            pieces,
            outcome: keep,
        },
        RawMessage::Have(data) => TcpStep {
            state: TcpState {
                bitfield_peer: state.bitfield_peer.update(word_at(data, 0) as int, true),
                ..state
            },
            pieces,
            outcome: keep,
        },
        RawMessage::Bitfield(data) => TcpStep {
            state: TcpState { bitfield_peer: unpacked(data), ..state },
            pieces,
            outcome: keep,
        },
        RawMessage::Request(data) => {
            let idx = word_at(data, 0) as int;
            TcpStep {
                state,
                pieces,
                outcome: if client[idx] && !state.status.client_choked && idx < pieces.len() {
                    OutcomeValue::Serve {
                        piece: word_at(data, 0),
                        file: pieces[idx].start_file,
                        position: pieces[idx].start_position,
                        block_offset: word_at(data, 4) as usize,
                        block_length: word_at(data, 8) as usize,
                    }
                } else {
                    keep
                },
            }
        },
        RawMessage::Piece(data) => on_piece(state, data, pieces),
        RawMessage::Cancel(data) => TcpStep { state, pieces, outcome: keep },
    }
}

/// The bytes by which a message is sent; those of some messages are never sent.
pub open spec fn outgoing(message: RawMessage) -> Option<Seq<u8>> {
    match message {
        RawMessage::KeepAlive => Some(seq![0u8, 0, 0, 0, 0]),
        RawMessage::Choke => Some(seq![0u8, 0, 0, 1, 0]),
        RawMessage::Unchoke => Some(seq![0u8, 0, 0, 1, 1]),
        RawMessage::Interested => Some(seq![0u8, 0, 0, 1, 2]),
        RawMessage::NotInterested => Some(seq![0u8, 0, 0, 1, 3]),
        RawMessage::Have(_) => None,
        RawMessage::Bitfield(data) => Some(data),
        RawMessage::Request(data) => Some(data),
        RawMessage::Piece(data) => Some(data),
        RawMessage::Cancel(_) => None,
    }
}

/// Who waits for whom once a message was sent.
pub open spec fn status_sent(status: PeerStatus, message: RawMessage) -> PeerStatus {
    match message {
        RawMessage::KeepAlive => PeerStatus { peer_choked: true, ..status },
        RawMessage::Choke => PeerStatus { peer_choked: true, ..status },
        RawMessage::Unchoke => PeerStatus { peer_choked: false, ..status },
        RawMessage::Interested => PeerStatus { client_interested: true, ..status },
        RawMessage::NotInterested => PeerStatus { client_interested: false, ..status },
        _ => status,
    }
}

/// What is done to ask the peer for a piece.
pub enum PlanValue {
    /// The peer does not have the piece.
    Unavailable,
    /// An answer is still waited for.
    Waiting,
    /// Send the messages; there is no such piece to ask for.
    NoPiece(Seq<RawMessage>),
    /// Send the messages, and then the request.
    Ask(Seq<RawMessage>, RawMessage),
}

/// The messages that come before a request: the peer is unchoked, and told that
/// it has something that is wanted.
pub open spec fn before_request(status: PeerStatus) -> Seq<RawMessage> {
    (if status.peer_choked {
        seq![RawMessage::Unchoke]
    } else {
        Seq::empty()
    }) + (if !status.client_interested {
        seq![RawMessage::Interested]
    } else {
        Seq::empty()
    })
}

/// The bytes of a request for a block.
pub open spec fn request_bytes(piece: u32, block: (u32, u32)) -> Seq<u8> {
    be_bytes(13, 4).push(6) + be_bytes(piece as nat, 4) + be_bytes(block.0 as nat, 4) + be_bytes(
        block.1 as nat,
        4,
    )
}

/// What is done to ask the peer for a piece.
pub open spec fn plan_of(state: TcpState, piece: usize, pieces: Seq<PieceState>) -> PlanValue {
    let idx = piece as u32;
    if !state.bitfield_peer[idx as int] {
        PlanValue::Unavailable
    } else if state.waiting_for_response {
        PlanValue::Waiting
    } else if idx >= pieces.len() {
        PlanValue::NoPiece(before_request(state.status))
    } else {
        PlanValue::Ask(
            before_request(state.status),
            RawMessage::Request(request_bytes(idx, next_block(pieces[idx as int]))),
        )
    }
}

/// The messages as they are meant.
pub open spec fn message_values(messages: Seq<Message>) -> Seq<RawMessage> {
    messages.map_values(|m: Message| m@)
}

/// What is to be done after a message.
pub enum PeerOutcome {
    /// Nothing.
    Keep,
    /// Drop the peer.
    Drop,
    /// Read the piece that begins at the place in the file, and send a block of it.
    Serve { piece: u32, file: usize, position: usize, block_offset: usize, block_length: usize },
    /// Write the piece to the place in the file.
    Write { file: usize, position: usize, data: Vec<u8> },
}

impl View for PeerOutcome {
    type V = OutcomeValue;

    open spec fn view(&self) -> OutcomeValue {
        match *self {
            PeerOutcome::Keep => OutcomeValue::Keep,
            PeerOutcome::Drop => OutcomeValue::Drop,
            PeerOutcome::Serve { piece, file, position, block_offset, block_length } => {
                OutcomeValue::Serve { piece, file, position, block_offset, block_length }
            },
            PeerOutcome::Write { file, position, data } => OutcomeValue::Write {
                file,
                position,
                data: data@,
            },
        }
    }
}

/// What is done to ask the peer for a piece.
pub enum RequestPlan {
    /// The peer does not have the piece.
    Unavailable,
    /// An answer is still waited for.
    Waiting,
    /// Send the messages; there is no such piece to ask for.
    NoPiece(Vec<Message>),
    /// Send the messages, and then the request.
    Ask(Vec<Message>, Message),
}

impl View for RequestPlan {
    type V = PlanValue;

    open spec fn view(&self) -> PlanValue {
        match *self {
            RequestPlan::Unavailable => PlanValue::Unavailable,
            RequestPlan::Waiting => PlanValue::Waiting,
            RequestPlan::NoPiece(messages) => PlanValue::NoPiece(message_values(messages@)),
            RequestPlan::Ask(messages, request) => PlanValue::Ask(
                message_values(messages@),
                request@,
            ),
        }
    }
}

/// A connection to a peer.
pub struct TcpPeer {
    status: PeerStatus,
    bitfield_peer: Bitfield,
    requested: Option<usize>,
    waiting_for_response: bool,
    last_message_time: u128,
}

impl TcpPeer {
    /// The state of the connection.
    pub closed spec fn state(self) -> TcpState {
        TcpState {
            status: self.status,
            bitfield_peer: self.bitfield_peer@,
            requested: self.requested,
            waiting_for_response: self.waiting_for_response,
            last_message_time: self.last_message_time,
        }
    }

    /// A connection at its beginning, for a torrent of so many pieces.
    pub fn new(pieces: usize, now: u128) -> (peer: TcpPeer)
        requires
            pieces <= isize::MAX,
        ensures
            peer.state() == (TcpState {
                status: PeerStatus {
                    peer_choked: true,
                    peer_interested: false,
                    client_choked: true,
                    client_interested: false,
                },
                bitfield_peer: Seq::new(pieces as nat, |i: int| false),
                requested: None,
                waiting_for_response: false,
                last_message_time: now,
            }),
    {
        TcpPeer {
            status: PeerStatus::new(),
            bitfield_peer: Bitfield::empty(pieces),
            requested: None,
            waiting_for_response: false,
            last_message_time: now,
        }
    }

    /// Whether the message holds what it needs, and speaks of pieces that there
    /// are.
    pub fn can_handle(&self, message: &Message, client: &Bitfield, pieces: &Vec<Piece>) -> (can:
        bool)
        ensures
            can == message_ok(self.state(), message@, client@, piece_states(pieces@)),
    {
        let ghost known = piece_states(pieces@);
        match message {
            Message::Have(data) => data.len() >= 4 && (read_word(data.as_slice(), 0) as usize)
                < self.bitfield_peer.len(),
            Message::Request(data) => data.len() >= 12 && (read_word(data.as_slice(), 0) as usize)
                < client.len(),
            Message::Piece(data) => {
                if data.len() < 8 {
                    return false;
                }
                let idx: usize = read_word(data.as_slice(), 0) as usize;
                if idx < pieces.len() {
                    assert(known[idx as int] == pieces@[idx as int]@);
                    let there: usize = pieces[idx].piece_data().len();
                    let more: usize = data.len() - 8;
                    (there as u128 + more as u128) <= MAX_HASHED_LEN as u128
                } else {
                    true
                }
            },
            Message::Cancel(data) => data.len() >= 12,
            _ => true,
        }
    }

    /// Takes a message of the peer.
    pub fn handle_peer_message(
        &mut self,
        message: Message,
        client: &Bitfield,
        pieces: &mut Vec<Piece>,
    ) -> (outcome: PeerOutcome)
        requires
            message_ok(old(self).state(), message@, client@, piece_states(old(pieces)@)),
            pieces_ok(piece_states(old(pieces)@)),
        ensures
            ({
                let step = on_message(
                    old(self).state(),
                    message@,
                    client@,
                    piece_states(old(pieces)@),
                );
                &&& final(self).state() == step.state
                &&& piece_states(final(pieces)@) == step.pieces
                &&& outcome@ == step.outcome
            }),
            pieces_ok(piece_states(final(pieces)@)),
    {
        let ghost before = self.state();
        let ghost known = piece_states(pieces@);
        match message {
            Message::KeepAlive => PeerOutcome::Keep,
            Message::Choke => {
                self.status.client_choked = true;
                PeerOutcome::Keep
            },
            Message::Unchoke => {
                self.status.client_choked = false;
                PeerOutcome::Keep
            },
            Message::Interested => {
                self.status.peer_interested = true;
                PeerOutcome::Keep
            },
            Message::NotInterested => {
                self.status.peer_interested = false;
                PeerOutcome::Keep
            },
            Message::Have(data) => {
                let piece: u32 = read_word(data.as_slice(), 0);
                self.bitfield_peer.piece_finished(piece);
                PeerOutcome::Keep
            },
            Message::Bitfield(data) => {
                self.bitfield_peer = Bitfield::from_peer_data(data);
                PeerOutcome::Keep
            },
            Message::Request(data) => {
                let piece_idx: u32 = read_word(data.as_slice(), 0);
                let block_offset: usize = read_word(data.as_slice(), 4) as usize;
                let block_length: usize = read_word(data.as_slice(), 8) as usize;
                if client.is_piece_available(piece_idx) && !self.status.client_choked && (
                piece_idx as usize) < pieces.len() {
                    assert(known[piece_idx as int] == pieces@[piece_idx as int]@);
                    let (file, position) = pieces[piece_idx as usize].get_offsets();
                    PeerOutcome::Serve { piece: piece_idx, file, position, block_offset, block_length }
                } else {
                    PeerOutcome::Keep
                }
            },
            Message::Piece(data) => self.take_block(&data, pieces),
            Message::Cancel(_) => PeerOutcome::Keep,
        }
    }

    /// Takes a block of a piece.
    fn take_block(&mut self, data: &Vec<u8>, pieces: &mut Vec<Piece>) -> (outcome: PeerOutcome)
        requires
            message_ok(
                old(self).state(),
                RawMessage::Piece(data@),
                Seq::empty(),
                piece_states(old(pieces)@),
            ),
            pieces_ok(piece_states(old(pieces)@)),
        ensures
            ({
                let step = on_piece(old(self).state(), data@, piece_states(old(pieces)@));
                &&& final(self).state() == step.state
                &&& piece_states(final(pieces)@) == step.pieces
                &&& outcome@ == step.outcome
            }),
            pieces_ok(piece_states(final(pieces)@)),
    {
        let ghost before = self.state();
        let ghost known = piece_states(pieces@);
        let idx: usize = read_word(data.as_slice(), 0) as usize;
        let wanted = match self.requested {
            Some(requested) => requested == idx,
            None => false,
        };
        if !wanted {
            return PeerOutcome::Drop;
        }
        let mut outcome = PeerOutcome::Keep;
        if idx < pieces.len() {
            let ghost piece = known[idx as int];
            assert(piece == pieces@[idx as int]@);
            let block = copy_range(data.as_slice(), 8, data.len());
            assert(block@ =~= data@.skip(8));
            if pieces[idx].add_received_bytes(block) {
                if pieces[idx].check_piece() {
                    let (file, position) = pieces[idx].get_offsets();
                    pieces[idx].set_finished(true);
                    pieces[idx].set_requested(false);
                    let data = copy_bytes(pieces[idx].piece_data());
                    outcome = PeerOutcome::Write { file, position, data };
                } else {
                    pieces[idx].reset_piece();
                }
                self.requested = None;
            }
            proof {
                let after = pieces@[idx as int]@;
                assert(after == piece_received(piece, data@.skip(8)));
                assert(piece_states(pieces@) =~= known.update(idx as int, after));
            }
        } else {
            self.requested = None;
        }
        self.waiting_for_response = false;
        outcome
    }

    /// The bytes by which a message is sent, where it is sent at all.
    pub fn outgoing(message: &Message) -> (data: Option<Vec<u8>>)
        ensures
            match data {
                Some(d) => outgoing(message@) == Some(d@),
                None => outgoing(message@) is None,
            },
    {
        match message {
            Message::KeepAlive => Some(vec![0, 0, 0, 0, 0]),
            Message::Choke => Some(vec![0, 0, 0, 1, 0]),
            Message::Unchoke => Some(vec![0, 0, 0, 1, 1]),
            Message::Interested => Some(vec![0, 0, 0, 1, 2]),
            Message::NotInterested => Some(vec![0, 0, 0, 1, 3]),
            Message::Have(_) => None,
            Message::Bitfield(data) => Some(copy_bytes(data.as_slice())),
            Message::Request(data) => Some(copy_bytes(data.as_slice())),
            Message::Piece(data) => Some(copy_bytes(data.as_slice())),
            Message::Cancel(_) => None,
        }
    }

    /// Notes that a message was sent.
    pub fn message_sent(&mut self, message: &Message)
        ensures
            final(self).state() == (TcpState {
                status: status_sent(old(self).state().status, message@),
                ..old(self).state()
            }),
    {
        match message {
            Message::KeepAlive => {
                self.status.peer_choked = true;
            },
            Message::Choke => {
                self.status.peer_choked = true;
            },
            Message::Unchoke => {
                self.status.peer_choked = false;
            },
            Message::Interested => {
                self.status.client_interested = true;
            },
            Message::NotInterested => {
                self.status.client_interested = false;
            },
            _ => {},
        }
    }

    /// Whether the peer says of the piece whether it has it, and no more of the
    /// piece came than it has.
    pub fn can_request(&self, piece: usize, pieces: &Vec<Piece>) -> (can: bool)
        ensures
            can == request_ok(self.state(), piece, piece_states(pieces@)),
    {
        let ghost known = piece_states(pieces@);
        let idx: usize = (piece as u32) as usize;
        if idx >= self.bitfield_peer.len() {
            return false;
        }
        if idx < pieces.len() {
            assert(known[idx as int] == pieces@[idx as int]@);
            pieces[idx].piece_data().len() <= pieces[idx].length()
        } else {
            true
        }
    }

    /// What is done to ask the peer for a piece.
    pub fn request_piece(&self, piece: usize, pieces: &Vec<Piece>) -> (plan: RequestPlan)
        requires
            request_ok(self.state(), piece, piece_states(pieces@)),
        ensures
            plan@ == plan_of(self.state(), piece, piece_states(pieces@)),
    {
        broadcast use lemma_be_bytes_len;

        let ghost known = piece_states(pieces@);
        let piece_idx: u32 = piece as u32;
        if !self.bitfield_peer.is_piece_available(piece_idx) {
            return RequestPlan::Unavailable;
        }
        if self.waiting_for_response {
            return RequestPlan::Waiting;
        }
        let mut messages: Vec<Message> = Vec::new();
        if self.status.peer_choked {
            messages.push(Message::Unchoke);
        }
        if !self.status.client_interested {
            messages.push(Message::Interested);
        }
        assert(message_values(messages@) =~= before_request(self.status));
        let idx: usize = piece_idx as usize;
        if idx >= pieces.len() {
            return RequestPlan::NoPiece(messages);
        }
        assert(known[idx as int] == pieces@[idx as int]@);
        let (block_offset, block_length) = pieces[idx].get_block_request();
        let mut data: Vec<u8> = Vec::with_capacity(13);
        push_be(&mut data, 13, 4);
        data.push(6);
        push_be(&mut data, piece_idx as u64, 4);
        push_be(&mut data, block_offset as u64, 4);
        push_be(&mut data, block_length as u64, 4);
        assert(data@ =~= request_bytes(piece_idx, (block_offset, block_length)));
        RequestPlan::Ask(messages, Message::Request(data))
    }

    /// Notes that the peer was asked for the piece.
    pub fn piece_asked(&mut self, piece: usize)
        ensures
            final(self).state() == (TcpState {
                requested: Some(piece as u32 as usize),
                waiting_for_response: true,
                ..old(self).state()
            }),
    {
        self.waiting_for_response = true;
        self.requested = Some((piece as u32) as usize);
    }

    /// Notes that something came from the peer.
    pub fn heard(&mut self, now: u128)
        ensures
            final(self).state() == (TcpState { last_message_time: now, ..old(self).state() }),
    {
        self.last_message_time = now;
    }

    /// Whether the peer was heard of not too long ago.
    pub fn is_responsive(&self, now: u128) -> (responsive: bool)
        ensures
            responsive == (now - self.state().last_message_time < SILENCE_LIMIT),
    {
        now <= self.last_message_time || now - self.last_message_time < SILENCE_LIMIT
    }

    /// Whether the peer can be asked for something.
    pub fn should_request(&self) -> (should: bool)
        ensures
            should == !self.state().waiting_for_response,
    {
        !self.waiting_for_response
    }

    /// The piece that the peer was asked for.
    pub fn get_assigned_piece(&self) -> (piece: Option<usize>)
        ensures
            piece == self.state().requested,
    {
        self.requested
    }
}

/// The peer says of the piece whether it has it, and no more of the piece came
/// than it has.
pub open spec fn request_ok(state: TcpState, piece: usize, pieces: Seq<PieceState>) -> bool {
    let idx = piece as u32 as int;
    &&& idx < state.bitfield_peer.len()
    &&& idx < pieces.len() ==> pieces[idx].piece_data.len() <= pieces[idx].piece_len
}

/// The first bytes on a connection: the protocol's name behind its length, eight
/// zeros, the digest of the torrent and the name of the client, which is twenty
/// times the letter `e`.
pub open spec fn handshake_bytes(info_hash: Seq<u8>) -> Seq<u8> {
    seq![19u8] + protocol_name() + Seq::new(8, |i: int| 0u8) + info_hash + Seq::new(
        20,
        |i: int| 101u8,
    )
}

/// The first bytes on a connection.
pub fn get_handshake(info_hash: &[u8; 20]) -> (handshake: Vec<u8>)
    ensures
        handshake@ == handshake_bytes(info_hash@),
        handshake@.len() == 68,
{
    let mut handshake: Vec<u8> = vec![
        19,
        66,
        105,
        116,
        84,
        111,
        114,
        114,
        101,
        110,
        116,
        32,
        112,
        114,
        111,
        116,
        111,
        99,
        111,
        108,
    ];
    assert(handshake@ =~= seq![19u8] + protocol_name());
    let mut reserved: Vec<u8> = vec![0; 8];
    assert(reserved@ =~= Seq::new(8, |i: int| 0u8));
    handshake.append(&mut reserved);
    let mut hash = copy_bytes(info_hash.as_slice());
    handshake.append(&mut hash);
    let mut id: Vec<u8> = vec![101; 20];
    assert(id@ =~= Seq::new(20, |i: int| 101u8));
    handshake.append(&mut id);
    handshake
}

/// The bytes of the message that follows the handshakes: the pieces that are
/// there, behind a length and a kind.
pub open spec fn bitfield_bytes(pieces: Seq<bool>) -> Seq<u8> {
    let data = packed(pieces, byte_count(pieces.len()));
    be_bytes((data.len() as u32 + 1) as nat, 4).push(5) + data
}

/// The message that follows the handshakes.
pub fn bitfield_message(bitfield: &Bitfield) -> (message: Message)
    requires
        (byte_count(bitfield@.len()) as u32) < u32::MAX,
    ensures
        message@ == RawMessage::Bitfield(bitfield_bytes(bitfield@)),
{
    broadcast use lemma_be_bytes_len;

    let mut bytes = bitfield.as_bytes();
    let length: u32 = bytes.len() as u32 + 1;
    let mut data: Vec<u8> = Vec::new();
    push_be(&mut data, length as u64, 4);
    data.push(5);
    data.append(&mut bytes);
    assert(data@ =~= bitfield_bytes(bitfield@));
    Message::Bitfield(data)
}

/// The bytes by which a block is sent: a length, a kind, the number of the piece,
/// the offset of the block and the block.
pub open spec fn block_bytes(piece: u32, block_offset: u32, block: Seq<u8>) -> Seq<u8> {
    be_bytes((9 + block.len() as u32) as nat, 4).push(7) + be_bytes(piece as nat, 4) + be_bytes(
        block_offset as nat,
        4,
    ) + block
}

/// The message by which a block of a piece is sent, or nothing where the block
/// does not lie within the piece.
pub fn try_block_message(piece: u32, data: &Vec<u8>, block_offset: usize, block_length: usize) -> (
message: Option<Message>)
    ensures
        match message {
            Some(m) => block_offset + block_length <= data@.len() && block_length as u32
                <= u32::MAX - 9 && m@ == RawMessage::Piece(
                block_bytes(
                    piece,
                    block_offset as u32,
                    data@.subrange(block_offset as int, block_offset + block_length),
                ),
            ),
            None => block_offset + block_length > data@.len() || block_length as u32 > u32::MAX
                - 9,
        },
{
    broadcast use lemma_be_bytes_len;

    if block_offset > data.len() || block_length > data.len() - block_offset {
        return None;
    }
    if block_length as u32 > u32::MAX - 9 {
        return None;
    }
    let mut block = copy_range(data.as_slice(), block_offset, block_offset + block_length);
    let ghost sent = block@;
    let length: u32 = 9 + block.len() as u32;
    let mut message: Vec<u8> = Vec::new();
    push_be(&mut message, length as u64, 4);
    message.push(7);
    push_be(&mut message, piece as u64, 4);
    push_be(&mut message, block_offset as u32 as u64, 4);
    message.append(&mut block);
    assert(message@ =~= block_bytes(piece, block_offset as u32, sent));
    Some(Message::Piece(message))
}

/// The number of bytes in the message that follows with its length, where the
/// length came whole.
pub fn frame_size(length_buf: &Vec<u8>, bytes: usize) -> (size: Option<usize>)
    requires
        length_buf@.len() >= 4,
        be_value(length_buf@.take(4)) <= u32::MAX - 4,
    ensures
        match size {
            Some(n) => bytes == 4 && n == be_value(length_buf@.take(4)) + 4,
            None => bytes != 4,
        },
{
    if bytes == 4 {
        Some((slice_get_u32(length_buf.as_slice()) + 4) as usize)
    } else {
        None
    }
}

/// Whether the length and the bytes of the length itself can be counted.
pub fn frame_countable(length_buf: &Vec<u8>) -> (countable: bool)
    requires
        length_buf@.len() >= 4,
    ensures
        countable == (be_value(length_buf@.take(4)) <= u32::MAX - 4),
{
    slice_get_u32(length_buf.as_slice()) <= u32::MAX - 4
}

/// A block that was sent is read back: its length counts the bytes behind it, and
/// behind the kind stand the number of the piece, the offset and the block.
pub proof fn lemma_block_comes_back(piece: u32, block_offset: u32, block: Seq<u8>)
    requires
        block.len() + 9 <= u32::MAX,
    ensures
        ({
            let data = block_bytes(piece, block_offset, block);
            &&& is_frame(data)
            &&& be_value(data.take(4)) == data.len() - 4
            &&& frame_message(data) matches Some(RawMessage::Piece(body)) && {
                &&& word_at(body, 0) == piece
                &&& word_at(body, 4) == block_offset
                &&& body.skip(8) == block
            }
        }),
{
    broadcast use lemma_be_bytes_len;

    lemma_byte_ranges();
    let data = block_bytes(piece, block_offset, block);
    let length = (9 + block.len()) as nat;
    lemma_be_round_trip(length, 4);
    lemma_be_round_trip(piece as nat, 4);
    lemma_be_round_trip(block_offset as nat, 4);
    let body = data.skip(5);
    assert(data.take(4) =~= be_bytes(length, 4));
    assert(body.skip(0).take(4) =~= be_bytes(piece as nat, 4));
    assert(body.skip(4).take(4) =~= be_bytes(block_offset as nat, 4));
    assert(body.skip(8) =~= block);
}

/// A block that was not asked for changes nothing and has the peer dropped.
pub proof fn lemma_unasked_block_is_dropped(
    state: TcpState,
    data: Seq<u8>,
    client: Seq<bool>,
    pieces: Seq<PieceState>,
)
    requires
        state.requested != Some(word_at(data, 0) as usize),
    ensures
        on_message(state, RawMessage::Piece(data), client, pieces) == (TcpStep {
            state,
            pieces,
            outcome: OutcomeValue::Drop,
        }),
{
}

/// A piece is written only when it is whole, and is complete from then on.
pub proof fn lemma_written_piece_is_whole(
    state: TcpState,
    message: RawMessage,
    client: Seq<bool>,
    pieces: Seq<PieceState>,
)
    requires
        on_message(state, message, client, pieces).outcome is Write,
    ensures
        ({
            let step = on_message(state, message, client, pieces);
            &&& state.requested is Some
            &&& state.requested.unwrap() < pieces.len()
            &&& step.state.requested is None
            &&& step.pieces[state.requested.unwrap() as int].finished
            &&& is_whole(step.pieces[state.requested.unwrap() as int])
            &&& step.outcome matches OutcomeValue::Write { data, .. } && data
                == step.pieces[state.requested.unwrap() as int].piece_data
        }),
{
}

} // verus!
