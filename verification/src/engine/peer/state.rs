//! What a connection to a peer is, and what every event makes of it.
use vstd::prelude::*;

use crate::engine::peer::message::MessageValue;

verus! {

/// The largest block that is asked for at once.
pub const BLOCK_SIZE: u32 = 16384;

/// How many unknown messages a peer may send before it is dropped.
pub const UNKNOWN_MESSAGES_LIMIT: u8 = 5;

/// What the engine is told of a peer.
#[derive(Clone, Copy, Debug, PartialEq, Eq, Structural)]
pub enum PeerStatus {
    /// Waiting for an unchoke message, or pieces are still to be requested.
    Busy,
    /// Pieces can be assigned to the peer.
    Ready,
    /// The connection has ended.
    Disconnected,
    /// The peer wants a piece.
    RequestedPiece(usize),
    /// Handshakes and bitfields were exchanged.
    ConnectionEstablished,
}

/// A piece on its way from or to a peer.
#[verifier::ext_equal]
pub struct RequestValue {
    pub idx: usize,
    pub size: usize,
    pub data: Seq<u8>,
    pub block_offset: u32,
    pub block_length: u32,
    pub received_data: usize,
}

/// Something to be done for a peer.
pub enum ActionValue {
    /// Send the message; where that fails, the peer is dropped.
    Send(MessageValue),
    /// Tell the engine how the peer is.
    Status(PeerStatus),
    /// Tell the engine which pieces the peer has.
    Pieces(Seq<bool>),
    /// Hand a piece to the engine.
    PieceData(usize, Seq<u8>),
}

/// A command of the engine to a peer.
pub enum CommandValue {
    Disconnect,
    SendInterested,
    SendNotInterested,
    SendPiece { piece: usize, data: Seq<u8> },
    RequestPiece { pieces: Seq<(usize, u64)> },
}

/// The state of a connection.
#[verifier::ext_equal]
pub struct PeerState {
    pub peer_interested: bool,
    pub client_interested: bool,
    pub peer_choking: bool,
    pub client_choking: bool,
    pub available_pieces: Seq<bool>,
    pub completed_pieces: Seq<bool>,
    pub peer_request: Option<RequestValue>,
    pub peer_request_pending: bool,
    pub client_request: Option<RequestValue>,
    pub client_request_queue: Seq<RequestValue>,
    pub waiting_for_message: bool,
    pub waiting_for_piece_data: bool,
    pub unknown_messages_received: u8,
}

/// What an event makes of a connection: the state afterwards, what is to be
/// done, and whether the peer is kept.
#[verifier::ext_equal]
pub struct Step {
    pub state: PeerState,
    pub actions: Seq<ActionValue>,
    pub keep: bool,
}

/// A connection at its beginning.
pub open spec fn initial(completed_pieces: Seq<bool>) -> PeerState {
    PeerState {
        peer_interested: false,
        client_interested: false,
        peer_choking: true,
        client_choking: true,
        available_pieces: Seq::empty(),
        completed_pieces,
        peer_request: None,
        peer_request_pending: false,
        client_request: None,
        client_request_queue: Seq::empty(),
        waiting_for_message: false,
        waiting_for_piece_data: false,
        unknown_messages_received: 0,
    }
}

/// A piece that is being fetched has room for all of its bytes, and no more of it
/// was asked for than there is.
pub open spec fn request_ok(request: RequestValue) -> bool {
    &&& request.data.len() == request.size
    &&& request.block_offset <= request.size as u32
}

/// What holds of every connection: all that is being fetched is in order.
pub open spec fn state_ok(state: PeerState) -> bool {
    &&& state.client_request matches Some(request) ==> request_ok(request)
    &&& forall|i: int|
        0 <= i < state.client_request_queue.len() ==> request_ok(
            #[trigger] state.client_request_queue[i],
        )
}

/// Telling the engine of a status: that the peer is ready is not told while
/// pieces are still to be requested.
pub open spec fn status_actions(state: PeerState, status: PeerStatus) -> Seq<ActionValue> {
    if status is Ready && state.client_request_queue.len() > 0 {
        Seq::empty()
    } else {
        seq![ActionValue::Status(status)]
    }
}

/// The bytes with a block written over them.
pub open spec fn with_block(data: Seq<u8>, offset: int, block: Seq<u8>) -> Seq<u8> {
    Seq::new(
        data.len(),
        |i: int|
            if offset <= i < offset + block.len() {
                block[i - offset]
            } else {
                data[i]
            },
    )
}

/// The block lies within the piece that is being fetched, and its bytes can be
/// counted.
pub open spec fn block_fits(request: RequestValue, offset: int, block: Seq<u8>) -> bool {
    &&& block.len() > 0 ==> offset + block.len() <= request.data.len()
    &&& request.received_data + block.len() <= usize::MAX
}

/// The message can be taken: a block of the piece that is being fetched lies
/// within the piece.
pub open spec fn message_ok(state: PeerState, message: MessageValue) -> bool {
    match message {
        MessageValue::Piece { piece_idx, block_offset, block_data } => match state.client_request {
            Some(request) => piece_idx as usize == request.idx ==> block_fits(
                request,
                block_offset as int,
                block_data,
            ),
            None => true,
        },
        MessageValue::Unknown(_) => state.unknown_messages_received < u8::MAX,
        _ => true,
    }
}

/// What the peer is asked for when it asks for a block itself: the piece that it
/// asked for before is kept where it is the same one.
pub open spec fn requested_by_peer(
    before: Option<RequestValue>,
    piece: usize,
    block_offset: u32,
    block_length: u32,
) -> RequestValue {
    match before {
        Some(request) => RequestValue {
            idx: piece,
            data: if request.idx == piece {
                request.data
            } else {
                Seq::empty()
            },
            block_offset,
            block_length,
            ..request
        },
        None => RequestValue {
            idx: piece,
            size: 0,
            data: Seq::empty(),
            block_offset,
            block_length,
            received_data: 0,
        },
    }
}

/// What a message makes of a connection. The requests of a peer that is choked are
/// ignored.
pub open spec fn on_message(state: PeerState, message: MessageValue) -> Step {
    match message {
        MessageValue::KeepAlive => Step { state, actions: Seq::empty(), keep: true },
        MessageValue::Choke => {
            let state = PeerState { peer_choking: true, ..state };
            Step { state, actions: status_actions(state, PeerStatus::Busy), keep: true }
        },
        MessageValue::Unchoke => if state.peer_choking {
            let state = PeerState { peer_choking: false, ..state };
            Step {
                state,
                actions: if state.available_pieces.len() > 0 {
                    status_actions(state, PeerStatus::Ready)
                } else {
                    Seq::empty()
                },
                keep: true,
            }
        } else {
            Step { state, actions: Seq::empty(), keep: true }
        },
        MessageValue::Interested => Step {
            state: PeerState { peer_interested: true, client_choking: false, ..state },
            actions: if state.client_choking {
                seq![ActionValue::Send(MessageValue::Unchoke)]
            } else {
                Seq::empty()
            },
            keep: true,
        },
        MessageValue::NotInterested => Step {
            state: PeerState { peer_interested: false, ..state },
            actions: Seq::empty(),
            keep: true,
        },
        MessageValue::Have { piece } => if piece < state.available_pieces.len() {
            let available_pieces = state.available_pieces.update(piece as int, true);
            Step {
                state: PeerState { available_pieces, ..state },
                actions: seq![ActionValue::Pieces(available_pieces)],
                keep: true,
            }
        } else {
            Step { state, actions: Seq::empty(), keep: false }
        },
        MessageValue::Bitfield { pieces } => {
            let state = PeerState { available_pieces: pieces, ..state };
            Step {
                state,
                actions: seq![ActionValue::Pieces(pieces)] + status_actions(
                    state,
                    PeerStatus::ConnectionEstablished,
                ),
                keep: true,
            }
        },
        MessageValue::Request { piece_idx, block_offset, block_length } => if state.client_choking {
            Step { state, actions: Seq::empty(), keep: true }
        } else {
            let piece = piece_idx as usize;
            let state = PeerState {
                peer_request: Some(
                    requested_by_peer(state.peer_request, piece, block_offset, block_length),
                ),
                peer_request_pending: true,
                ..state
            };
            Step {
                state,
                actions: status_actions(state, PeerStatus::RequestedPiece(piece)),
                keep: true,
            }
        },
        MessageValue::Piece { piece_idx, block_offset, block_data } => match state.client_request {
            Some(request) => if piece_idx as usize == request.idx {
                on_block(state, request, block_offset, block_data)
            } else {
                Step { state, actions: Seq::empty(), keep: false }
            },
            None => Step { state, actions: Seq::empty(), keep: false },
        },
        MessageValue::Cancel { .. } => Step {
            state: PeerState { client_request: None, ..state },
            actions: Seq::empty(),
            keep: true,
        },
        MessageValue::Unknown(_) => {
            let count = (state.unknown_messages_received + 1) as u8;
            Step {
                state: PeerState { unknown_messages_received: count, ..state },
                actions: Seq::empty(),
                keep: count < UNKNOWN_MESSAGES_LIMIT,
            }
        },
    }
}

/// What a block of the piece that is being fetched makes of a connection: once
/// as many bytes came as the piece has, the piece goes to the engine and the
/// next one in the queue is fetched.
pub open spec fn on_block(
    state: PeerState,
    request: RequestValue,
    block_offset: u32,
    block: Seq<u8>,
) -> Step {
    let received = RequestValue {
        data: with_block(request.data, block_offset as int, block),
        received_data: (request.received_data + block.len()) as usize,
        ..request
    };
    if received.received_data == received.size {
        let queue = state.client_request_queue;
        Step {
            state: PeerState {
                client_request: if queue.len() > 0 {
                    Some(queue.last())
                } else {
                    None
                },
                client_request_queue: if queue.len() > 0 {
                    queue.drop_last()
                } else {
                    queue
                },
                waiting_for_piece_data: false,
                ..state
            },
            actions: seq![ActionValue::PieceData(received.idx, received.data)],
            keep: true,
        }
    } else {
        Step {
            state: PeerState { client_request: Some(received), ..state },
            actions: Seq::empty(),
            keep: true,
        }
    }
}

/// A piece to be fetched, of which nothing has come.
pub open spec fn fresh_request(piece: usize, length: u64) -> RequestValue {
    RequestValue {
        idx: piece,
        size: length as usize,
        data: Seq::new(length as usize as nat, |i: int| 0u8),
        block_offset: 0,
        block_length: 0,
        received_data: 0,
    }
}

/// Pieces to be fetched, in the order in which a queue gives them out from its
/// end.
pub open spec fn fresh_requests(pieces: Seq<(usize, u64)>) -> Seq<RequestValue> {
    Seq::new(
        pieces.len(),
        |i: int|
            fresh_request(pieces[pieces.len() - 1 - i].0, pieces[pieces.len() - 1 - i].1),
    )
}

/// There can be room for each of the pieces.
pub open spec fn lengths_fit(pieces: Seq<(usize, u64)>) -> bool {
    forall|i: int| 0 <= i < pieces.len() ==> (#[trigger] pieces[i]).1 as usize <= isize::MAX
}

/// A command can be taken: there can be room for the pieces that it names.
pub open spec fn command_ok(command: CommandValue) -> bool {
    match command {
        CommandValue::RequestPiece { pieces } => lengths_fit(pieces),
        _ => true,
    }
}

/// What a command makes of a connection.
pub open spec fn on_command(state: PeerState, command: CommandValue) -> Step {
    match command {
        CommandValue::Disconnect => Step { state, actions: Seq::empty(), keep: false },
        CommandValue::SendInterested => Step {
            state: PeerState { client_choking: false, client_interested: true, ..state },
            actions: (if state.client_choking {
                seq![ActionValue::Send(MessageValue::Unchoke)]
            } else {
                Seq::empty()
            }) + (if !state.client_interested {
                seq![ActionValue::Send(MessageValue::Interested)]
            } else {
                Seq::empty()
            }),
            keep: true,
        },
        CommandValue::SendNotInterested => Step {
            state,
            actions: seq![ActionValue::Send(MessageValue::NotInterested)],
            keep: true,
        },
        CommandValue::SendPiece { piece, data } => match state.peer_request {
            Some(request) => if request.idx == piece {
                let state = PeerState {
                    peer_request: Some(RequestValue { data, ..request }),
                    ..state
                };
                Step { state, actions: status_actions(state, PeerStatus::Busy), keep: true }
            } else {
                Step { state, actions: Seq::empty(), keep: true }
            },
            None => Step { state, actions: Seq::empty(), keep: true },
        },
        CommandValue::RequestPiece { pieces } => {
            let requests = fresh_requests(pieces);
            let (client_request, queued) = if state.client_request is None && requests.len() > 0 {
                (Some(requests.last()), requests.drop_last())
            } else {
                (state.client_request, requests)
            };
            Step {
                state: PeerState {
                    client_request,
                    client_request_queue: state.client_request_queue + queued,
                    ..state
                },
                actions: status_actions(state, PeerStatus::Busy),
                keep: true,
            }
        },
    }
}

/// How many blocks are left to be asked for.
pub open spec fn blocks_left(size: u32, offset: u32) -> nat {
    if offset >= size {
        0
    } else {
        ((size - offset + BLOCK_SIZE - 1) / BLOCK_SIZE as int) as nat
    }
}

/// The request for the `i`th of the blocks that are left: as long as the largest
/// block, or as long as what is left.
pub open spec fn block_request(piece: u32, size: u32, offset: u32, i: int) -> MessageValue {
    let start = offset + BLOCK_SIZE * i;
    MessageValue::Request {
        piece_idx: piece,
        block_offset: start as u32,
        block_length: (if size - start < BLOCK_SIZE {
            size - start
        } else {
            BLOCK_SIZE as int
        }) as u32,
    }
}

/// The requests for all the blocks of a piece that are left.
pub open spec fn block_requests(piece: u32, size: u32, offset: u32) -> Seq<MessageValue> {
    Seq::new(blocks_left(size, offset), |i: int| block_request(piece, size, offset, i))
}

/// Asking for what is left of the piece that is being fetched.
pub open spec fn on_client_request(state: PeerState) -> Step {
    match state.client_request {
        Some(request) => Step {
            state: PeerState {
                client_request: Some(
                    RequestValue { block_offset: request.size as u32, ..request },
                ),
                waiting_for_piece_data: true,
                ..state
            },
            actions: block_requests(
                request.idx as u32,
                request.size as u32,
                request.block_offset,
            ).map_values(|m: MessageValue| ActionValue::Send(m)),
            keep: true,
        },
        None => Step { state, actions: Seq::empty(), keep: true },
    }
}

/// The block that the peer wants lies within the piece that the engine gave.
pub open spec fn peer_block_ok(request: RequestValue) -> bool {
    request.data.len() > 0 ==> request.block_offset + request.block_length <= request.data.len()
}

/// Sending the block that the peer wants, which is then no longer due; without the
/// piece's data the peer is dropped.
pub open spec fn on_peer_request(state: PeerState) -> Step {
    match state.peer_request {
        Some(request) => if request.data.len() > 0 {
            let start = request.block_offset as int;
            Step {
                state: PeerState { peer_request_pending: false, ..state },
                actions: seq![
                    ActionValue::Send(
                        MessageValue::Piece {
                            piece_idx: request.idx as u32,
                            block_offset: request.block_offset,
                            block_data: request.data.subrange(start, start + request.block_length),
                        },
                    ),
                ],
                keep: true,
            }
        } else {
            Step { state, actions: Seq::empty(), keep: false }
        },
        None => Step { state, actions: Seq::empty(), keep: true },
    }
}

/// Sending the block that the peer wants, where one is due.
pub open spec fn on_pending(state: PeerState) -> Step {
    if state.peer_request_pending {
        on_peer_request(state)
    } else {
        Step { state, actions: Seq::empty(), keep: true }
    }
}

/// What is noted and told before a peer is listened to: a client that wants
/// pieces waits for the peer to unchoke it, or is ready for pieces.
pub open spec fn on_idle(state: PeerState) -> Step {
    Step {
        state: PeerState {
            waiting_for_message: state.waiting_for_message || (state.client_interested
                && state.peer_choking),
            ..state
        },
        actions: if state.client_interested && !state.peer_choking && state.client_request is None
            && state.client_request_queue.len() == 0 {
            status_actions(state, PeerStatus::Ready)
        } else {
            Seq::empty()
        },
        keep: true,
    }
}

/// Telling the peer of a piece that has become complete.
pub open spec fn on_completed(state: PeerState, piece: usize) -> Step {
    Step {
        state,
        actions: seq![ActionValue::Send(MessageValue::Have { piece: piece as u32 })],
        keep: true,
    }
}

/// A message is waited for.
pub open spec fn listens(state: PeerState) -> bool {
    state.waiting_for_message || state.waiting_for_piece_data
}

/// Two events, one after the other; the second one does not come where the peer
/// is dropped by the first.
pub open spec fn both(first: Step, second: Step) -> Step {
    if first.keep {
        Step {
            state: second.state,
            actions: first.actions + second.actions,
            keep: second.keep,
        }
    } else {
        first
    }
}

/// What a command that may be missing makes of a connection.
pub open spec fn commanded(state: PeerState, command: Option<CommandValue>) -> Step {
    match command {
        Some(command) => on_command(state, command),
        None => Step { state, actions: Seq::empty(), keep: true },
    }
}

/// The peer is told of a piece that may have become complete, and what comes
/// before it is listened to is noted.
pub open spec fn told(state: PeerState, completed: Option<usize>) -> Step {
    match completed {
        Some(piece) => both(on_completed(state, piece), on_idle(state)),
        None => on_idle(state),
    }
}

/// What is due to the peer: the block that it wants, and requests for the piece
/// that is being fetched where nothing is waited for.
pub open spec fn served(state: PeerState) -> Step {
    let first = on_pending(state);
    if !listens(state) && !state.peer_choking && state.client_request is Some {
        both(first, on_client_request(first.state))
    } else {
        first
    }
}

/// What happens in a round before the peer is listened to: a command, a piece
/// that has become complete, and what is due to the peer.
pub open spec fn on_round(
    state: PeerState,
    command: Option<CommandValue>,
    completed: Option<usize>,
) -> Step {
    let first = commanded(state, command);
    let second = told(first.state, completed);
    both(first, both(second, served(second.state)))
}

/// The peer is listened to after what comes first in a round; otherwise it is asked
/// for blocks, where that is due, and given time.
pub open spec fn round_listens(
    state: PeerState,
    command: Option<CommandValue>,
    completed: Option<usize>,
) -> bool {
    on_round(state, command, completed).keep && listens(
        told(commanded(state, command).state, completed).state,
    )
}

/// A round can be taken: the command can, and the block that the peer wants lies
/// within its piece.
pub open spec fn round_ok(state: PeerState, command: Option<CommandValue>) -> bool {
    let first = commanded(state, command);
    &&& command matches Some(c) ==> command_ok(c)
    &&& first.keep ==> pending_ok(first.state)
}

/// The block that the peer waits for lies within its piece.
pub open spec fn pending_ok(state: PeerState) -> bool {
    match state.peer_request {
        Some(request) => state.peer_request_pending ==> peer_block_ok(request),
        None => true,
    }
}

/// What a message that was listened for makes of a connection.
pub open spec fn on_received(state: PeerState, message: MessageValue) -> Step {
    let step = on_message(state, message);
    if step.keep {
        Step { state: PeerState { waiting_for_message: false, ..step.state }, ..step }
    } else {
        step
    }
}

/// The end of a connection: the engine is told, and the piece that was being
/// fetched is cancelled from its end on.
pub open spec fn farewell(state: PeerState) -> Seq<ActionValue> {
    seq![ActionValue::Status(PeerStatus::Disconnected)] + (match state.client_request {
        Some(request) => seq![
            ActionValue::Send(
                MessageValue::Cancel {
                    piece_idx: request.idx as u32,
                    block_offset: request.data.len() as u32,
                    block_length: (if request.size - request.data.len() < BLOCK_SIZE {
                        request.size - request.data.len()
                    } else {
                        BLOCK_SIZE as int
                    }) as u32,
                },
            ),
        ],
        None => Seq::empty(),
    })
}

/// The requests for the blocks that are left of a piece follow one another
/// without a gap, none is empty or longer than the largest block, and together
/// they reach from the offset to the end of the piece.
pub proof fn lemma_blocks_cover(piece: u32, size: u32, offset: u32)
    requires
        offset <= size,
    ensures
        ({
            let requests = block_requests(piece, size, offset);
            &&& requests.len() == 0 <==> offset == size
            &&& forall|i: int|
                0 <= i < requests.len() ==> ((#[trigger] requests[i]) matches MessageValue::Request {
                    piece_idx,
                    block_offset,
                    block_length,
                } && {
                    &&& piece_idx == piece
                    &&& 0 < block_length <= BLOCK_SIZE
                    &&& i == 0 ==> block_offset == offset
                    &&& i > 0 ==> (requests[i - 1] matches MessageValue::Request {
                        block_offset: earlier,
                        block_length: length,
                        ..
                    } && block_offset == earlier + length)
                    &&& i == requests.len() - 1 ==> block_offset + block_length == size
                })
        }),
{
}

/// A message leaves the pieces that are being fetched in order.
pub proof fn lemma_message_keeps_order(state: PeerState, message: MessageValue)
    requires
        state_ok(state),
        message_ok(state, message),
    ensures
        state_ok(on_message(state, message).state),
{
}

/// A command leaves the pieces that are being fetched in order.
pub proof fn lemma_command_keeps_order(state: PeerState, command: CommandValue)
    requires
        state_ok(state),
        command_ok(command),
    ensures
        state_ok(on_command(state, command).state),
{
}

/// The engine is told that the peer is ready.
pub open spec fn tells_ready(actions: Seq<ActionValue>) -> bool {
    actions.contains(ActionValue::Status(PeerStatus::Ready))
}

proof fn lemma_tells_ready(first: Seq<ActionValue>, second: Seq<ActionValue>)
    ensures
        tells_ready(first + second) ==> tells_ready(first) || tells_ready(second),
{
    if tells_ready(first + second) {
        let both = first + second;
        let i = choose|i: int|
            0 <= i < both.len() && both[i] == ActionValue::Status(PeerStatus::Ready);
        if i < first.len() {
            assert(first[i] == both[i]);
        } else {
            assert(second[i - first.len()] == both[i]);
        }
    }
}

/// A round tells the engine that the peer is ready only when no piece is being
/// fetched or left to be requested.
pub proof fn lemma_ready_means_nothing_left(
    state: PeerState,
    command: Option<CommandValue>,
    completed: Option<usize>,
)
    ensures
        tells_ready(on_round(state, command, completed).actions) ==> {
            let after = on_round(state, command, completed).state;
            after.client_request_queue.len() == 0 && after.client_request is None
        },
{
    let first = commanded(state, command);
    let second = told(first.state, completed);
    let third = served(second.state);
    lemma_tells_ready(first.actions, both(second, third).actions);
    lemma_tells_ready(second.actions, third.actions);
    assert(!tells_ready(first.actions));
    if let Some(piece) = completed {
        lemma_tells_ready(
            on_completed(first.state, piece).actions,
            on_idle(first.state).actions,
        );
    }
    let sent = on_pending(second.state);
    let asked = on_client_request(sent.state);
    lemma_tells_ready(sent.actions, asked.actions);
    assert(!tells_ready(sent.actions));
    assert(!tells_ready(asked.actions));
}

/// A request of a peer that is choked changes nothing, and nothing is done about
/// it.
pub proof fn lemma_choked_request_is_ignored(
    state: PeerState,
    piece_idx: u32,
    block_offset: u32,
    block_length: u32,
)
    requires
        state.client_choking,
    ensures
        on_message(
            state,
            MessageValue::Request { piece_idx, block_offset, block_length },
        ) == (Step { state, actions: Seq::empty(), keep: true }),
{
}

/// A block is sent to the peer.
pub open spec fn sends_block(actions: Seq<ActionValue>) -> bool {
    exists|i: int|
        0 <= i < actions.len() && (#[trigger] actions[i]) matches ActionValue::Send(
            MessageValue::Piece { .. },
        )
}

proof fn lemma_sends_block(first: Seq<ActionValue>, second: Seq<ActionValue>)
    ensures
        sends_block(first + second) ==> sends_block(first) || sends_block(second),
{
    if sends_block(first + second) {
        let both = first + second;
        let i = choose|i: int|
            0 <= i < both.len() && (#[trigger] both[i]) matches ActionValue::Send(
                MessageValue::Piece { .. },
            );
        if i < first.len() {
            assert(first[i] == both[i]);
        } else {
            assert(second[i - first.len()] == both[i]);
        }
    }
}

proof fn lemma_command_sends_no_block(state: PeerState, command: Option<CommandValue>)
    ensures
        !sends_block(commanded(state, command).actions),
        commanded(state, command).state.peer_request_pending == state.peer_request_pending,
        commanded(state, command).state.peer_request is Some == state.peer_request is Some,
{
}

proof fn lemma_telling_sends_no_block(state: PeerState, completed: Option<usize>)
    ensures
        !sends_block(told(state, completed).actions),
        told(state, completed).keep,
        told(state, completed).state.peer_request_pending == state.peer_request_pending,
        told(state, completed).state.peer_request == state.peer_request,
{
    if let Some(piece) = completed {
        lemma_sends_block(on_completed(state, piece).actions, on_idle(state).actions);
    }
}

proof fn lemma_serving_sends_what_is_due(state: PeerState)
    ensures
        sends_block(served(state).actions) ==> state.peer_request_pending && state.peer_request
            is Some,
        served(state).keep && served(state).state.peer_request_pending
            ==> served(state).state.peer_request is None,
{
    let sent = on_pending(state);
    let asked = on_client_request(sent.state);
    lemma_sends_block(sent.actions, asked.actions);
    assert(!sends_block(asked.actions));
}

/// A block goes out once: a round sends one only where one is due, and after a round
/// in which the peer is kept none is due until the peer asks again.
pub proof fn lemma_block_is_sent_once(
    state: PeerState,
    command: Option<CommandValue>,
    completed: Option<usize>,
)
    ensures
        sends_block(on_round(state, command, completed).actions) ==> state.peer_request_pending
            && state.peer_request is Some,
        on_round(state, command, completed).keep ==> ({
            let after = on_round(state, command, completed).state;
            after.peer_request_pending ==> after.peer_request is None
        }),
{
    let first = commanded(state, command);
    let second = told(first.state, completed);
    let third = served(second.state);
    lemma_command_sends_no_block(state, command);
    lemma_telling_sends_no_block(first.state, completed);
    lemma_serving_sends_what_is_due(second.state);
    lemma_sends_block(first.actions, both(second, third).actions);
    lemma_sends_block(second.actions, third.actions);
}

} // verus!
