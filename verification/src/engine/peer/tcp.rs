//! A connection to a peer.
use vstd::prelude::*;

use crate::engine::peer::connection::HANDSHAKE_LEN;
use crate::engine::peer::message::{Message, MessageValue};
use crate::engine::peer::state::{
    ActionValue, BLOCK_SIZE, CommandValue, PeerState, PeerStatus, RequestValue, Step,
    UNKNOWN_MESSAGES_LIMIT, block_fits, block_request, block_requests, blocks_left, command_ok,
    commanded, farewell, fresh_request, fresh_requests, initial, lengths_fit, listens, message_ok,
    on_block, on_client_request, on_command, on_message, on_peer_request, on_received, on_round,
    peer_block_ok, pending_ok, request_ok, requested_by_peer, round_listens, round_ok, served, state_ok,
    status_actions, told, with_block,
};
use crate::engine::peer::{Bitfield, copy_flags};
use crate::scan::copy_range;
use crate::wire::{
    be_bytes, be_value, bytes_from, bytes_mut, bytes_seq, freeze, get_u8, lemma_be_bytes_len,
    put_slice, put_u64, put_u8, slice_get_u32,
};

verus! {

/// A piece on its way from or to a peer.
pub struct PieceRequest {
    idx: usize,
    size: usize,
    data: Vec<u8>,
    block_offset: u32,
    block_length: u32,
    received_data: usize,
}

impl View for PieceRequest {
    type V = RequestValue;

    closed spec fn view(&self) -> RequestValue {
        RequestValue {
            idx: self.idx,
            size: self.size,
            data: self.data@,
            block_offset: self.block_offset,
            block_length: self.block_length,
            received_data: self.received_data,
        }
    }
}

/// The requests as they are meant.
pub open spec fn request_values(requests: Seq<PieceRequest>) -> Seq<RequestValue> {
    requests.map_values(|r: PieceRequest| r@)
}

/// A request that may be missing, as it is meant.
pub open spec fn request_value(request: Option<PieceRequest>) -> Option<RequestValue> {
    match request {
        Some(request) => Some(request@),
        None => None,
    }
}

/// A command of the engine to a peer.
#[derive(Debug)]
pub enum PeerCommand {
    Disconnect,
    SendInterested,
    SendNotInterested,
    SendPiece { piece: usize, data: Vec<u8> },
    RequestPiece { pieces: Vec<(usize, u64)> },
}

impl View for PeerCommand {
    type V = CommandValue;

    open spec fn view(&self) -> CommandValue {
        match *self {
            PeerCommand::Disconnect => CommandValue::Disconnect,
            PeerCommand::SendInterested => CommandValue::SendInterested,
            PeerCommand::SendNotInterested => CommandValue::SendNotInterested,
            PeerCommand::SendPiece { piece, data } => CommandValue::SendPiece {
                piece,
                data: data@,
            },
            PeerCommand::RequestPiece { pieces } => CommandValue::RequestPiece {
                pieces: pieces@,
            },
        }
    }
}

/// Something to be done for a peer.
pub enum PeerAction {
    /// Send the message; where that fails, the peer is dropped.
    Send(Message),
    /// Tell the engine how the peer is.
    Status(PeerStatus),
    /// Tell the engine which pieces the peer has.
    Pieces(Vec<bool>),
    /// Hand a piece to the engine.
    PieceData(usize, Vec<u8>),
}

impl View for PeerAction {
    type V = ActionValue;

    open spec fn view(&self) -> ActionValue {
        match *self {
            PeerAction::Send(message) => ActionValue::Send(message@),
            PeerAction::Status(status) => ActionValue::Status(status),
            PeerAction::Pieces(pieces) => ActionValue::Pieces(pieces@),
            PeerAction::PieceData(piece, data) => ActionValue::PieceData(piece, data@),
        }
    }
}

/// The actions as they are meant.
pub open spec fn action_values(actions: Seq<PeerAction>) -> Seq<ActionValue> {
    actions.map_values(|a: PeerAction| a@)
}

/// What is to be done, and whether the peer is kept afterwards.
pub struct PeerReply {
    pub actions: Vec<PeerAction>,
    pub keep: bool,
}

impl PeerReply {
    /// The reply says what the step says, and the state is the one that the step
    /// leads to.
    pub open spec fn is(self, state: PeerState, step: Step) -> bool {
        &&& state == step.state
        &&& action_values(self.actions@) == step.actions
        &&& self.keep == step.keep
    }
}

impl PeerReply {
    /// Whether the peer is kept once the actions were done, or were not because a
    /// message could not be sent: then it is dropped.
    pub fn keeps(&self, sent: bool) -> (keeps: bool)
        ensures
            keeps == (self.keep && sent),
    {
        self.keep && sent
    }
}

/// How a round ends.
#[derive(Clone, Copy, Debug, PartialEq, Eq, Structural)]
pub enum Turn {
    /// The peer is dropped.
    Drop,
    /// A message of the peer is waited for.
    Listen,
    /// Nothing is done for a while.
    Sleep,
}

/// What is to be done in a round, whether the peer is kept afterwards, and whether it
/// is listened to then.
pub struct RoundReply {
    pub actions: Vec<PeerAction>,
    pub keep: bool,
    pub listen: bool,
}

impl RoundReply {
    /// The reply says what the step says, and the state is the one that the step
    /// leads to.
    pub open spec fn is(self, state: PeerState, step: Step, listen: bool) -> bool {
        &&& state == step.state
        &&& action_values(self.actions@) == step.actions
        &&& self.keep == step.keep
        &&& self.listen == listen
    }

    /// How the round ends once the actions were done, or were not because a message
    /// could not be sent: then the peer is dropped.
    pub fn turn(&self, sent: bool) -> (turn: Turn)
        ensures
            turn == (if !self.keep || !sent {
                Turn::Drop
            } else if self.listen {
                Turn::Listen
            } else {
                Turn::Sleep
            }),
    {
        if !self.keep || !sent {
            Turn::Drop
        } else if self.listen {
            Turn::Listen
        } else {
            Turn::Sleep
        }
    }
}

/// A connection to a peer.
pub struct TcpPeer {
    info_hash: [u8; 20],
    peer_interested: bool,
    client_interested: bool,
    peer_choking: bool,
    client_choking: bool,
    available_pieces: Vec<bool>,
    completed_pieces: Vec<bool>,
    peer_request: Option<PieceRequest>,
    peer_request_pending: bool,
    client_request: Option<PieceRequest>,
    client_request_queue: Vec<PieceRequest>,
    waiting_for_message: bool,
    waiting_for_piece_data: bool,
    unknown_messages_received: u8,
}

/// Adds an action.
fn act(actions: &mut Vec<PeerAction>, action: PeerAction)
    ensures
        action_values(final(actions)@) == action_values(old(actions)@).push(action@),
{
    actions.push(action);
    assert(action_values(actions@) =~= action_values(old(actions)@).push(action@));
}

/// No actions.
fn no_actions() -> (actions: Vec<PeerAction>)
    ensures
        action_values(actions@) == Seq::<ActionValue>::empty(),
{
    let actions: Vec<PeerAction> = Vec::new();
    assert(action_values(actions@) =~= Seq::<ActionValue>::empty());
    actions
}

impl TcpPeer {
    /// The state of the connection.
    pub closed spec fn state(self) -> PeerState {
        PeerState {
            peer_interested: self.peer_interested,
            client_interested: self.client_interested,
            peer_choking: self.peer_choking,
            client_choking: self.client_choking,
            available_pieces: self.available_pieces@,
            completed_pieces: self.completed_pieces@,
            peer_request: request_value(self.peer_request),
            peer_request_pending: self.peer_request_pending,
            client_request: request_value(self.client_request),
            client_request_queue: request_values(self.client_request_queue@),
            waiting_for_message: self.waiting_for_message,
            waiting_for_piece_data: self.waiting_for_piece_data,
            unknown_messages_received: self.unknown_messages_received,
        }
    }

    /// The digest of the torrent that the connection is for.
    pub closed spec fn torrent(self) -> Seq<u8> {
        self.info_hash@
    }

    /// A connection at its beginning.
    pub fn new(info_hash: [u8; 20], completed_pieces: Vec<bool>) -> (peer: TcpPeer)
        ensures
            peer.torrent() == info_hash@,
            peer.state() == initial(completed_pieces@),
            state_ok(peer.state()),
    {
        let peer = TcpPeer {
            info_hash,
            peer_interested: false,
            client_interested: false,
            peer_choking: true,
            client_choking: true,
            available_pieces: Vec::new(),
            completed_pieces,
            peer_request: None,
            peer_request_pending: false,
            client_request: None,
            client_request_queue: Vec::new(),
            waiting_for_message: false,
            waiting_for_piece_data: false,
            unknown_messages_received: 0,
        };
        assert(peer.state().client_request_queue =~= Seq::empty());
        assert(peer.state().available_pieces =~= Seq::empty());
        peer
    }

    /// Tells the engine of a status, unless the status is that the peer is ready
    /// and pieces are still to be requested.
    fn update_peer_status(&self, actions: &mut Vec<PeerAction>, status: PeerStatus)
        ensures
            action_values(final(actions)@) == action_values(old(actions)@) + status_actions(
                self.state(),
                status,
            ),
    {
        let told = match status {
            PeerStatus::Ready => self.client_request_queue.len() == 0,
            _ => true,
        };
        if told {
            act(actions, PeerAction::Status(status));
        }
        assert(action_values(actions@) =~= action_values(old(actions)@) + status_actions(
            self.state(),
            status,
        ));
    }

    /// Whether the message can be taken.
    pub fn can_handle(&self, msg: &Message) -> (can: bool)
        ensures
            can == message_ok(self.state(), msg@),
    {
        match msg {
            Message::Piece { piece_idx, block_offset, block_data } => match &self.client_request {
                Some(request) => if *piece_idx as usize == request.idx {
                    let length: usize = block_data.len();
                    let room: usize = request.data.len();
                    let fits = length == 0 || (length <= room && *block_offset as usize <= room
                        - length);
                    fits && length <= usize::MAX - request.received_data
                } else {
                    true
                },
                None => true,
            },
            Message::Unknown(_) => self.unknown_messages_received < u8::MAX,
            _ => true,
        }
    }

    /// Takes a message of the peer.
    pub fn handle_peer_msg(&mut self, msg: Message) -> (reply: PeerReply)
        requires
            message_ok(old(self).state(), msg@),
        ensures
            reply.is(final(self).state(), on_message(old(self).state(), msg@)),
            final(self).torrent() == old(self).torrent(),
            state_ok(old(self).state()) ==> state_ok(final(self).state()),
    {
        let ghost before = self.state();
        let mut actions = no_actions();
        let mut keep = true;
        match msg {
            Message::KeepAlive => {},
            Message::Choke => {
                self.peer_choking = true;
                self.update_peer_status(&mut actions, PeerStatus::Busy);
            },
            Message::Unchoke => {
                if self.peer_choking {
                    self.peer_choking = false;
                    if self.available_pieces.len() > 0 {
                        self.update_peer_status(&mut actions, PeerStatus::Ready);
                    }
                }
            },
            Message::Interested => {
                self.peer_interested = true;
                if self.client_choking {
                    self.client_choking = false;
                    act(&mut actions, PeerAction::Send(Message::Unchoke));
                }
            },
            Message::NotInterested => {
                self.peer_interested = false;
            },
            Message::Have { piece } => {
                let piece: usize = piece as usize;
                if piece >= self.available_pieces.len() {
                    keep = false;
                } else {
                    self.available_pieces.set(piece, true);
                    act(&mut actions, PeerAction::Pieces(copy_flags(&self.available_pieces)));
                }
            },
            Message::Bitfield { bitfield } => {
                self.available_pieces = bitfield.into_pieces();
                act(&mut actions, PeerAction::Pieces(copy_flags(&self.available_pieces)));
                self.update_peer_status(&mut actions, PeerStatus::ConnectionEstablished);
            },
            Message::Request { piece_idx, block_offset, block_length } => {
                if !self.client_choking {
                    let piece_idx: usize = piece_idx as usize;
                    self.note_peer_request(piece_idx, block_offset, block_length);
                    self.update_peer_status(&mut actions, PeerStatus::RequestedPiece(piece_idx));
                }
            },
            Message::Piece { piece_idx, block_offset, block_data } => {
                let wanted: Option<usize> = match &self.client_request {
                    Some(request) => Some(request.idx),
                    None => None,
                };
                match wanted {
                    Some(idx) => {
                        if piece_idx as usize == idx {
                            self.take_block(&mut actions, block_offset, &block_data);
                        } else {
                            keep = false;
                        }
                    },
                    None => {
                        keep = false;
                    },
                }
            },
            Message::Cancel { .. } => {
                self.client_request = None;
            },
            Message::Unknown(_) => {
                self.unknown_messages_received = self.unknown_messages_received + 1;
                if self.unknown_messages_received >= UNKNOWN_MESSAGES_LIMIT {
                    keep = false;
                }
            },
        }
        let reply = PeerReply { actions, keep };
        proof {
            let step = on_message(before, msg@);
            assert(self.state() =~= step.state);
            assert(action_values(reply.actions@) =~= step.actions);
        }
        reply
    }

    /// Notes that the peer wants a block.
    fn note_peer_request(&mut self, piece_idx: usize, block_offset: u32, block_length: u32)
        ensures
            final(self).torrent() == old(self).torrent(),
            final(self).state() == (PeerState {
                peer_request: Some(
                    requested_by_peer(
                        old(self).state().peer_request,
                        piece_idx,
                        block_offset,
                        block_length,
                    ),
                ),
                peer_request_pending: true,
                ..old(self).state()
            }),
    {
        match self.peer_request.take() {
            Some(mut request) => {
                request.block_offset = block_offset;
                request.block_length = block_length;
                if request.idx != piece_idx {
                    request.idx = piece_idx;
                    request.data = Vec::new();
                    assert(request.data@ =~= Seq::empty());
                }
                self.peer_request = Some(request);
            },
            None => {
                let data: Vec<u8> = Vec::new();
                assert(data@ =~= Seq::empty());
                self.peer_request = Some(
                    PieceRequest {
                        idx: piece_idx,
                        size: 0,
                        data,
                        block_offset,
                        block_length,
                        received_data: 0,
                    },
                );
            },
        }
        self.peer_request_pending = true;
    }

    /// Takes a block of the piece that is being fetched.
    fn take_block(&mut self, actions: &mut Vec<PeerAction>, block_offset: u32, block: &Vec<u8>)
        requires
            old(self).state().client_request matches Some(request) && block_fits(
                request,
                block_offset as int,
                block@,
            ),
        ensures
            final(self).torrent() == old(self).torrent(),
            ({
                let step = on_block(
                    old(self).state(),
                    old(self).state().client_request.unwrap(),
                    block_offset,
                    block@,
                );
                &&& final(self).state() == step.state
                &&& action_values(final(actions)@) == action_values(old(actions)@) + step.actions
            }),
            state_ok(old(self).state()) ==> state_ok(final(self).state()),
    {
        let ghost before = self.state();
        let ghost wanted = self.client_request.unwrap()@;
        if let Some(mut request) = self.client_request.take() {
            let offset: usize = block_offset as usize;
            request.received_data = request.received_data + block.len();
            let ghost data = request.data@;
            let room: usize = request.data.len();
            let mut i: usize = 0;
            while i < block.len()
                invariant
                    i <= block@.len(),
                    offset == block_offset,
                    data.len() == room,
                    block@.len() > 0 ==> offset + block@.len() <= data.len(),
                    request.data@.len() == data.len(),
                    request.idx == wanted.idx,
                    request.size == wanted.size,
                    request.block_offset == wanted.block_offset,
                    request.block_length == wanted.block_length,
                    request.received_data == wanted.received_data + block@.len(),
                    request.data@ == with_block(data, offset as int, block@.take(i as int)),
                decreases block@.len() - i,
            {
                request.data.set(offset + i, block[i]);
                i = i + 1;
                assert(request.data@ =~= with_block(data, offset as int, block@.take(i as int)));
            }
            assert(block@.take(i as int) =~= block@);
            if request.received_data == request.size {
                act(actions, PeerAction::PieceData(request.idx, request.data));
                self.client_request = self.client_request_queue.pop();
                self.waiting_for_piece_data = false;
            } else {
                self.client_request = Some(request);
            }
        }
        proof {
            let step = on_block(before, wanted, block_offset, block@);
            assert(self.state().client_request_queue =~= step.state.client_request_queue);
            assert(self.state() =~= step.state);
            assert(action_values(actions@) =~= action_values(old(actions)@) + step.actions);
        }
    }

    /// Whether the command can be taken.
    pub fn can_follow(cmd: &PeerCommand) -> (can: bool)
        ensures
            can == command_ok(cmd@),
    {
        match cmd {
            PeerCommand::RequestPiece { pieces } => lengths_ok(pieces),
            _ => true,
        }
    }

    /// Follows a command of the engine.
    pub fn handle_engine_cmd(&mut self, cmd: PeerCommand) -> (reply: PeerReply)
        requires
            command_ok(cmd@),
        ensures
            reply.is(final(self).state(), on_command(old(self).state(), cmd@)),
            final(self).torrent() == old(self).torrent(),
            state_ok(old(self).state()) ==> state_ok(final(self).state()),
    {
        let ghost before = self.state();
        let mut actions = no_actions();
        let mut keep = true;
        match cmd {
            PeerCommand::Disconnect => {
                keep = false;
            },
            PeerCommand::SendInterested => {
                if self.client_choking {
                    act(&mut actions, PeerAction::Send(Message::Unchoke));
                }
                self.client_choking = false;
                if !self.client_interested {
                    act(&mut actions, PeerAction::Send(Message::Interested));
                }
                self.client_interested = true;
            },
            PeerCommand::SendNotInterested => {
                act(&mut actions, PeerAction::Send(Message::NotInterested));
            },
            PeerCommand::SendPiece { piece, data } => {
                if let Some(mut request) = self.peer_request.take() {
                    let wanted = request.idx == piece;
                    if wanted {
                        request.data = data;
                    }
                    self.peer_request = Some(request);
                    if wanted {
                        self.update_peer_status(&mut actions, PeerStatus::Busy);
                    }
                }
            },
            PeerCommand::RequestPiece { pieces } => {
                let mut requests = queue_of(&pieces);
                let ghost queued = requests@;
                if self.client_request.is_none() {
                    self.client_request = requests.pop();
                }
                self.update_peer_status(&mut actions, PeerStatus::Busy);
                self.client_request_queue.append(&mut requests);
                proof {
                    let step = on_command(before, cmd@);
                    assert(self.state().client_request_queue
                        =~= step.state.client_request_queue);
                    assert forall|i: int|
                        state_ok(before) && 0 <= i
                            < self.state().client_request_queue.len() implies request_ok(
                        #[trigger] self.state().client_request_queue[i],
                    ) by {}
                }
            },
        }
        let reply = PeerReply { actions, keep };
        proof {
            let step = on_command(before, cmd@);
            assert(self.state() =~= step.state);
            assert(action_values(reply.actions@) =~= step.actions);
        }
        reply
    }

    /// Asks for what is left of the piece that is being fetched.
    pub fn send_client_request(&mut self) -> (reply: PeerReply)
        requires
            old(self).state().client_request is Some,
            state_ok(old(self).state()),
        ensures
            reply.is(final(self).state(), on_client_request(old(self).state())),
            final(self).torrent() == old(self).torrent(),
            state_ok(final(self).state()),
    {
        let ghost before = self.state();
        let mut actions = no_actions();
        if let Some(mut request) = self.client_request.take() {
            let ghost wanted = request@;
            let piece_idx: u32 = request.idx as u32;
            let size: u32 = request.size as u32;
            let ghost start = request.block_offset;
            let ghost sent: Seq<MessageValue> = Seq::empty();
            while request.block_offset < size
                invariant
                    piece_idx == wanted.idx as u32,
                    size == wanted.size as u32,
                    start == wanted.block_offset,
                    request@ == (RequestValue { block_offset: request.block_offset, ..wanted }),
                    start <= request.block_offset <= size,
                    sent.len() <= blocks_left(size, start),
                    request.block_offset == size <==> sent.len() == blocks_left(size, start),
                    request.block_offset < size ==> request.block_offset == start + BLOCK_SIZE
                        * sent.len(),
                    forall|i: int|
                        0 <= i < sent.len() ==> #[trigger] sent[i] == block_request(
                            piece_idx,
                            size,
                            start,
                            i,
                        ),
                    action_values(actions@) == sent.map_values(
                        |m: MessageValue| ActionValue::Send(m),
                    ),
                decreases size - request.block_offset,
            {
                let block_offset: u32 = request.block_offset;
                let pending: u32 = size - block_offset;
                let block_length: u32 = if pending < BLOCK_SIZE {
                    pending
                } else {
                    BLOCK_SIZE
                };
                let message = Message::Request { piece_idx, block_offset, block_length };
                proof {
                    let value = message@;
                    assert(sent.push(value).map_values(|m: MessageValue| ActionValue::Send(m))
                        =~= sent.map_values(|m: MessageValue| ActionValue::Send(m)).push(
                        ActionValue::Send(value),
                    ));
                    sent = sent.push(value);
                }
                act(&mut actions, PeerAction::Send(message));
                request.block_offset = block_offset + block_length;
            }
            assert(sent =~= block_requests(piece_idx, size, start));
            self.client_request = Some(request);
        }
        self.waiting_for_piece_data = true;
        let reply = PeerReply { actions, keep: true };
        proof {
            let step = on_client_request(before);
            assert(self.state() =~= step.state);
            assert(action_values(reply.actions@) =~= step.actions);
        }
        reply
    }
}

/// The name of the protocol, in ASCII.
pub open spec fn protocol_name() -> Seq<u8> {
    seq![
        66u8, 105, 116, 84, 111, 114, 114, 101, 110, 116, 32, 112, 114, 111, 116, 111, 99, 111, 108,
    ]
}

/// The name that this client goes by: twenty zeros in ASCII.
pub open spec fn placeholder_id() -> Seq<u8> {
    Seq::new(20, |i: int| 48u8)
}

/// The longest message that is read.
pub const MAX_MESSAGE_LEN: usize = 65535;

/// The first bytes on a connection: the protocol's name behind its length, eight
/// reserved bytes, the digest of the torrent and the name of the client.
pub open spec fn handshake_bytes(info_hash: Seq<u8>) -> Seq<u8> {
    seq![19u8] + protocol_name() + be_bytes(0, 8) + info_hash + placeholder_id()
}

/// A command that may be missing, as it is meant.
pub open spec fn command_value(command: Option<PeerCommand>) -> Option<CommandValue> {
    match command {
        Some(command) => Some(command@),
        None => None,
    }
}

impl TcpPeer {
    /// The first bytes on the connection.
    pub fn handshake(&self) -> (data: bytes::Bytes)
        ensures
            bytes_seq(data) == handshake_bytes(self.torrent()),
            bytes_seq(data).len() == HANDSHAKE_LEN,
    {
        broadcast use lemma_be_bytes_len;

        let protocol: [u8; 19] = [
            66, 105, 116, 84, 111, 114, 114, 101, 110, 116, 32, 112, 114, 111, 116, 111, 99, 111, 108,
        ];
        let id: [u8; 20] = [48; 20];
        assert(protocol@ =~= protocol_name());
        assert(id@ =~= placeholder_id());
        let mut handshake = bytes_mut(HANDSHAKE_LEN);
        put_u8(&mut handshake, 19);
        put_slice(&mut handshake, protocol.as_slice());
        put_u64(&mut handshake, 0);
        put_slice(&mut handshake, self.info_hash.as_slice());
        put_slice(&mut handshake, id.as_slice());
        let data = freeze(handshake);
        assert(bytes_seq(data) =~= handshake_bytes(self.torrent()));
        data
    }

    /// Whether the peer's answer to the handshake is taken: it is as long as a
    /// handshake and came whole, and it begins with the length of the protocol's name.
    pub fn handshake_accepted(response: Vec<u8>, bytes_read: usize) -> (accepted: bool)
        ensures
            accepted == (response@.len() == HANDSHAKE_LEN && bytes_read == HANDSHAKE_LEN
                && response@[0] == 19),
    {
        if response.len() != HANDSHAKE_LEN || bytes_read != response.len() {
            return false;
        }
        let mut response_bytes = bytes_from(response);
        get_u8(&mut response_bytes) == 19
    }

    /// The length of the message that follows, or nothing where the four bytes of
    /// the length did not come whole or the message would be too long.
    pub fn message_length(length_buf: &Vec<u8>, read_bytes: usize) -> (length: Option<usize>)
        requires
            length_buf@.len() >= 4,
        ensures
            match length {
                Some(n) => read_bytes == 4 && n == be_value(length_buf@.take(4)) && n
                    <= MAX_MESSAGE_LEN,
                None => read_bytes == 4 ==> be_value(length_buf@.take(4)) > MAX_MESSAGE_LEN,
            },
    {
        if read_bytes != 4 {
            return None;
        }
        let length: usize = slice_get_u32(length_buf.as_slice()) as usize;
        if length > MAX_MESSAGE_LEN {
            None
        } else {
            Some(length)
        }
    }

    /// The message that follows the handshakes: the pieces that are complete. The
    /// peer's answer is waited for.
    pub fn establish_connection(&mut self) -> (message: Message)
        ensures
            message@ == (MessageValue::Bitfield { pieces: old(self).state().completed_pieces }),
            final(self).state() == (PeerState { waiting_for_message: true, ..old(self).state() }),
            final(self).torrent() == old(self).torrent(),
    {
        self.waiting_for_message = true;
        Message::Bitfield { bitfield: Bitfield::from_pieces(copy_flags(&self.completed_pieces)) }
    }

    /// Whether a message is waited for.
    pub fn listens(&self) -> (waiting: bool)
        ensures
            waiting == listens(self.state()),
    {
        self.waiting_for_message || self.waiting_for_piece_data
    }

    /// Takes a message that was listened for.
    pub fn receive(&mut self, msg: Message) -> (reply: PeerReply)
        requires
            message_ok(old(self).state(), msg@),
        ensures
            reply.is(final(self).state(), on_received(old(self).state(), msg@)),
            final(self).torrent() == old(self).torrent(),
            state_ok(old(self).state()) ==> state_ok(final(self).state()),
    {
        let reply = self.handle_peer_msg(msg);
        if reply.keep {
            self.waiting_for_message = false;
        }
        reply
    }

    /// Whether the peer wants a block, and it lies within the piece that the engine
    /// gave.
    pub fn can_send_peer_request(&self) -> (can: bool)
        ensures
            can == (self.state().peer_request matches Some(request) && peer_block_ok(request)),
    {
        match &self.peer_request {
            Some(request) => {
                let room: usize = request.data.len();
                let start: usize = request.block_offset as usize;
                room == 0 || (start <= room && request.block_length as usize <= room - start)
            },
            None => false,
        }
    }

    /// Sends the block that the peer wants, which is then no longer due.
    pub fn send_peer_request(&mut self) -> (reply: PeerReply)
        requires
            old(self).state().peer_request matches Some(request) && peer_block_ok(request),
        ensures
            reply.is(final(self).state(), on_peer_request(old(self).state())),
            final(self).torrent() == old(self).torrent(),
            state_ok(old(self).state()) ==> state_ok(final(self).state()),
    {
        let ghost before = self.state();
        let mut actions = no_actions();
        let mut keep = true;
        if let Some(request) = &self.peer_request {
            if request.data.len() > 0 {
                let start: usize = request.block_offset as usize;
                let block_data = copy_range(
                    request.data.as_slice(),
                    start,
                    start + request.block_length as usize,
                );
                act(
                    &mut actions,
                    PeerAction::Send(
                        Message::Piece {
                            piece_idx: request.idx as u32,
                            block_offset: request.block_offset,
                            block_data,
                        },
                    ),
                );
            } else {
                keep = false;
            }
        }
        if keep {
            self.peer_request_pending = false;
        }
        let reply = PeerReply { actions, keep };
        assert(action_values(reply.actions@) =~= on_peer_request(before).actions);
        reply
    }

    /// What comes before the peer is listened to in each round: the engine's
    /// command is followed, the peer is told of a piece that has become complete,
    /// and what is due to the peer is sent. Nothing comes back where the command
    /// cannot be taken, or the block that the peer wants does not lie within its
    /// piece.
    pub fn try_round(&mut self, cmd: Option<PeerCommand>, completed: Option<usize>) -> (reply:
        Option<RoundReply>)
        requires
            state_ok(old(self).state()),
        ensures
            match reply {
                Some(r) => round_ok(old(self).state(), command_value(cmd)) && r.is(
                    final(self).state(),
                    on_round(old(self).state(), command_value(cmd), completed),
                    round_listens(old(self).state(), command_value(cmd), completed),
                ),
                None => !round_ok(old(self).state(), command_value(cmd)) && final(self).state() == (
                if cmd matches Some(c) && !command_ok(c@) {
                    old(self).state()
                } else {
                    commanded(old(self).state(), command_value(cmd)).state
                }),
            },
            final(self).torrent() == old(self).torrent(),
            state_ok(final(self).state()),
    {
        let mut first = match self.try_follow(cmd) {
            Some(reply) => reply,
            None => return None,
        };
        if !first.keep {
            return Some(RoundReply { actions: first.actions, keep: false, listen: false });
        }
        if self.peer_request_pending && self.peer_request.is_some()
            && !self.can_send_peer_request() {
            return None;
        }
        let mut second = self.tell(completed);
        let listen = self.listens();
        let mut third = self.serve();
        let ghost actions = action_values(first.actions@) + (action_values(second.actions@)
            + action_values(third.actions@));
        first.actions.append(&mut second.actions);
        first.actions.append(&mut third.actions);
        assert(action_values(first.actions@) =~= actions);
        Some(
            RoundReply { actions: first.actions, keep: third.keep, listen: third.keep && listen },
        )
    }

    /// Follows a command of the engine that may be missing, or gives nothing back
    /// where the command cannot be taken.
    fn try_follow(&mut self, cmd: Option<PeerCommand>) -> (reply: Option<PeerReply>)
        requires
            state_ok(old(self).state()),
        ensures
            match reply {
                Some(r) => (cmd matches Some(c) ==> command_ok(c@)) && r.is(
                    final(self).state(),
                    commanded(old(self).state(), command_value(cmd)),
                ),
                None => cmd matches Some(c) && !command_ok(c@) && final(self).state() == old(
                    self,
                ).state(),
            },
            final(self).torrent() == old(self).torrent(),
            state_ok(final(self).state()),
    {
        match cmd {
            Some(cmd) => if TcpPeer::can_follow(&cmd) {
                Some(self.handle_engine_cmd(cmd))
            } else {
                None
            },
            None => Some(PeerReply { actions: no_actions(), keep: true }),
        }
    }

    /// Tells the peer of a piece that has become complete, and the engine whether
    /// the peer is ready.
    fn tell(&mut self, completed: Option<usize>) -> (reply: PeerReply)
        requires
            state_ok(old(self).state()),
        ensures
            reply.is(final(self).state(), told(old(self).state(), completed)),
            reply.keep,
            final(self).torrent() == old(self).torrent(),
            state_ok(final(self).state()),
            pending_ok(old(self).state()) ==> pending_ok(final(self).state()),
    {
        let ghost before = self.state();
        let mut actions = no_actions();
        if let Some(piece) = completed {
            act(&mut actions, PeerAction::Send(Message::Have { piece: piece as u32 }));
        }
        if self.client_interested && self.peer_choking {
            self.waiting_for_message = true;
        }
        if self.client_interested && !self.peer_choking && self.client_request.is_none()
            && self.client_request_queue.len() == 0 {
            self.update_peer_status(&mut actions, PeerStatus::Ready);
        }
        assert(self.state() =~= told(before, completed).state);
        assert(action_values(actions@) =~= told(before, completed).actions);
        PeerReply { actions, keep: true }
    }

    /// Sends what is due to the peer.
    fn serve(&mut self) -> (reply: PeerReply)
        requires
            state_ok(old(self).state()),
            pending_ok(old(self).state()),
        ensures
            reply.is(final(self).state(), served(old(self).state())),
            final(self).torrent() == old(self).torrent(),
            state_ok(final(self).state()),
    {
        let mut reply = if self.peer_request_pending && self.peer_request.is_some() {
            self.send_peer_request()
        } else {
            PeerReply { actions: no_actions(), keep: true }
        };
        if reply.keep && !self.listens() && !self.peer_choking && self.client_request.is_some() {
            let mut asked = self.send_client_request();
            let ghost actions = action_values(reply.actions@) + action_values(asked.actions@);
            reply.actions.append(&mut asked.actions);
            assert(action_values(reply.actions@) =~= actions);
        }
        reply
    }

    /// Ends the connection.
    pub fn finish(self) -> (actions: Vec<PeerAction>)
        requires
            state_ok(self.state()),
        ensures
            action_values(actions@) == farewell(self.state()),
    {
        let mut actions = no_actions();
        act(&mut actions, PeerAction::Status(PeerStatus::Disconnected));
        if let Some(request) = self.client_request {
            let left: usize = request.size - request.data.len();
            let block_length: u32 = if left < BLOCK_SIZE as usize {
                left as u32
            } else {
                BLOCK_SIZE
            };
            act(
                &mut actions,
                PeerAction::Send(
                    Message::Cancel {
                        piece_idx: request.idx as u32,
                        block_offset: request.data.len() as u32,
                        block_length,
                    },
                ),
            );
        }
        assert(action_values(actions@) =~= farewell(self.state()));
        actions
    }
}

/// Whether there can be room for each of the pieces.
fn lengths_ok(pieces: &Vec<(usize, u64)>) -> (ok: bool)
    ensures
        ok == lengths_fit(pieces@),
{
    let mut i: usize = 0;
    while i < pieces.len()
        invariant
            i <= pieces@.len(),
            forall|k: int| 0 <= k < i ==> (#[trigger] pieces@[k]).1 as usize <= isize::MAX,
        decreases pieces@.len() - i,
    {
        if pieces[i].1 as usize > isize::MAX as usize {
            assert(pieces@[i as int].1 as usize > isize::MAX);
            return false;
        }
        i = i + 1;
    }
    true
}

/// Pieces to be fetched, the first one last.
fn queue_of(pieces: &Vec<(usize, u64)>) -> (requests: Vec<PieceRequest>)
    requires
        lengths_fit(pieces@),
    ensures
        request_values(requests@) == fresh_requests(pieces@),
        forall|i: int| 0 <= i < requests@.len() ==> request_ok((#[trigger] requests@[i])@),
{
    let mut requests: Vec<PieceRequest> = Vec::new();
    let mut left: usize = pieces.len();
    while left > 0
        invariant
            left <= pieces@.len(),
            requests@.len() == pieces@.len() - left,
            forall|i: int|
                0 <= i < requests@.len() ==> (#[trigger] requests@[i])@ == fresh_requests(pieces@)[i],
        decreases left,
    {
        left = left - 1;
        let (piece, length) = pieces[left];
        let size: usize = length as usize;
        let data: Vec<u8> = vec![0; size];
        assert(data@ =~= fresh_request(piece, length).data);
        requests.push(
            PieceRequest {
                idx: piece,
                size,
                data,
                block_offset: 0,
                block_length: 0,
                received_data: 0,
            },
        );
    }
    assert(request_values(requests@) =~= fresh_requests(pieces@));
    requests
}

} // verus!
