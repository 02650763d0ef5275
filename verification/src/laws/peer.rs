//! How a connection to a peer behaves.
use vstd::prelude::*;

use crate::engine::peer::message::MessageValue;
use crate::engine::peer::state::{
    ActionValue, CommandValue, PeerState, PeerStatus, RequestValue, block_requests, commanded,
    farewell, initial, lemma_blocks_cover, message_ok, on_command, on_message, on_received,
    on_round, round_listens, round_ok, served, told,
};
use crate::engine::peer::tcp::handshake_bytes;
use crate::wire::be_bytes;

verus! {

/// Something that happens on a connection.
pub enum Event {
    /// A message came.
    Message(MessageValue),
    /// A round was begun, with a command and a piece that has become complete.
    Round(Option<CommandValue>, Option<usize>),
}

/// The connection after the first `count` events.
pub open spec fn state_after(state: PeerState, events: Seq<Event>, count: int) -> PeerState
    decreases count,
{
    if count <= 0 {
        state
    } else {
        let before = state_after(state, events, count - 1);
        match events[count - 1] {
            Event::Message(message) => on_received(before, message).state,
            Event::Round(command, completed) => on_round(before, command, completed).state,
        }
    }
}

/// What is done at an event.
pub open spec fn done_at(state: PeerState, events: Seq<Event>, at: int) -> Seq<ActionValue> {
    let before = state_after(state, events, at);
    match events[at] {
        Event::Message(message) => on_received(before, message).actions,
        Event::Round(command, completed) => on_round(before, command, completed).actions,
    }
}

/// The peer is asked for a block.
pub open spec fn asks_for_block(actions: Seq<ActionValue>) -> bool {
    exists|i: int|
        0 <= i < actions.len() && (#[trigger] actions[i]) matches ActionValue::Send(
            MessageValue::Request { .. },
        )
}

/// The message is sent.
pub open spec fn sends(actions: Seq<ActionValue>, message: MessageValue) -> bool {
    actions.contains(ActionValue::Send(message))
}

/// Whether the peer chokes the client is what it last said of it: nothing but its
/// choke and unchoke messages changes that, and they do not touch whether the client
/// chokes the peer.
pub proof fn lemma_choking_is_what_the_peer_said(state: PeerState, message: MessageValue)
    ensures
        message is Choke ==> on_message(state, message).state.peer_choking,
        message is Unchoke ==> !on_message(state, message).state.peer_choking,
        !(message is Choke) && !(message is Unchoke) ==> on_message(
            state,
            message,
        ).state.peer_choking == state.peer_choking,
        message is Choke || message is Unchoke ==> on_message(state, message).state.client_choking
            == state.client_choking,
        on_received(state, message).state.peer_choking == on_message(
            state,
            message,
        ).state.peer_choking,
        !asks_for_block(on_received(state, message).actions),
{
}

proof fn lemma_command_asks_for_nothing(state: PeerState, command: Option<CommandValue>)
    ensures
        ({
            let step = commanded(state, command);
            &&& !asks_for_block(step.actions)
            &&& step.state.peer_choking == state.peer_choking
            &&& step.state.peer_interested == state.peer_interested
            &&& step.state.available_pieces == state.available_pieces
        }),
{
}

proof fn lemma_telling_asks_for_nothing(state: PeerState, completed: Option<usize>)
    ensures
        ({
            let step = told(state, completed);
            &&& step.keep
            &&& !asks_for_block(step.actions)
            &&& step.state.peer_choking == state.peer_choking
            &&& step.state.peer_interested == state.peer_interested
            &&& step.state.available_pieces == state.available_pieces
        }),
{
}

proof fn lemma_serving_respects_choking(state: PeerState)
    ensures
        ({
            let step = served(state);
            &&& asks_for_block(step.actions) ==> !state.peer_choking
            &&& step.state.peer_choking == state.peer_choking
            &&& step.state.peer_interested == state.peer_interested
            &&& step.state.available_pieces == state.available_pieces
        }),
{
}

proof fn lemma_asking_is_in_a_part(first: Seq<ActionValue>, second: Seq<ActionValue>)
    ensures
        asks_for_block(first + second) ==> asks_for_block(first) || asks_for_block(second),
{
    let actions = first + second;
    if asks_for_block(actions) {
        let i = choose|i: int|
            0 <= i < actions.len() && (#[trigger] actions[i]) matches ActionValue::Send(
                MessageValue::Request { .. },
            );
        if i < first.len() {
            assert(first[i] == actions[i]);
        } else {
            assert(second[i - first.len()] == actions[i]);
        }
    }
}

/// A round leaves alone what the peer said of itself, and asks for blocks only where
/// the peer does not choke the client.
pub proof fn lemma_round_respects_choking(
    state: PeerState,
    command: Option<CommandValue>,
    completed: Option<usize>,
)
    ensures
        on_round(state, command, completed).state.peer_choking == state.peer_choking,
        on_round(state, command, completed).state.peer_interested == state.peer_interested,
        on_round(state, command, completed).state.available_pieces == state.available_pieces,
        asks_for_block(on_round(state, command, completed).actions) ==> !state.peer_choking,
{
    let first = commanded(state, command);
    let second = told(first.state, completed);
    let third = served(second.state);
    lemma_command_asks_for_nothing(state, command);
    lemma_telling_asks_for_nothing(first.state, completed);
    lemma_serving_respects_choking(second.state);
    lemma_asking_is_in_a_part(second.actions, third.actions);
    lemma_asking_is_in_a_part(first.actions, second.actions + third.actions);
}

/// From a choke message up to the next unchoke message the peer is not asked for
/// anything, whatever else happens.
pub proof fn lemma_choked_client_asks_for_nothing(state: PeerState, events: Seq<Event>, at: int)
    requires
        0 < at < events.len(),
        events[0] == Event::Message(MessageValue::Choke),
        forall|k: int|
            0 < k <= at ==> !((#[trigger] events[k]) matches Event::Message(MessageValue::Unchoke)),
    ensures
        state_after(state, events, at).peer_choking,
        !asks_for_block(done_at(state, events, at)),
    decreases at,
{
    let before = state_after(state, events, at - 1);
    if at == 1 {
        assert(state_after(state, events, 0) == state);
        lemma_choking_is_what_the_peer_said(state, MessageValue::Choke);
    } else {
        lemma_choked_client_asks_for_nothing(state, events, at - 1);
        match events[at - 1] {
            Event::Message(message) => {
                assert(!(message is Unchoke));
                lemma_choking_is_what_the_peer_said(before, message);
            },
            Event::Round(command, completed) => {
                lemma_round_respects_choking(before, command, completed);
            },
        }
    }
    let now = state_after(state, events, at);
    match events[at] {
        Event::Message(message) => {
            lemma_choking_is_what_the_peer_said(now, message);
        },
        Event::Round(command, completed) => {
            lemma_round_respects_choking(now, command, completed);
        },
    }
}

/// A message changes only what it speaks of.
pub proof fn lemma_message_changes(state: PeerState, message: MessageValue)
    ensures
        ({
            let after = on_message(state, message).state;
            // What the peer wants.
            &&& message is Interested ==> after.peer_interested
            &&& message is NotInterested ==> !after.peer_interested
            &&& !(message is Interested) && !(message is NotInterested) ==> after.peer_interested
                == state.peer_interested
            // What the client wants and has.
            &&& after.client_interested == state.client_interested
            &&& after.completed_pieces == state.completed_pieces
            &&& after.waiting_for_message == state.waiting_for_message
            // The client lets go of the peer only when the peer wants something.
            &&& message is Interested ==> !after.client_choking
            &&& !(message is Interested) ==> after.client_choking == state.client_choking
            // The pieces of the peer.
            &&& message matches MessageValue::Bitfield { pieces } ==> after.available_pieces
                == pieces
            &&& message matches MessageValue::Have { piece } ==> {
                &&& after.available_pieces.len() == state.available_pieces.len()
                &&& piece < state.available_pieces.len() ==> after.available_pieces[piece as int]
                &&& forall|k: int|
                    0 <= k < state.available_pieces.len() && k != piece
                        ==> #[trigger] after.available_pieces[k] == state.available_pieces[k]
            }
            &&& !(message is Bitfield) && !(message is Have) ==> after.available_pieces
                == state.available_pieces
            // What is fetched.
            &&& !(message is Piece) && !(message is Cancel) ==> after.client_request
                == state.client_request
            &&& message is Cancel ==> after.client_request is None
            &&& !(message is Piece) ==> after.client_request_queue == state.client_request_queue
                && after.waiting_for_piece_data == state.waiting_for_piece_data
            // What the peer asked for.
            &&& !(message is Request) ==> after.peer_request == state.peer_request
                && after.peer_request_pending == state.peer_request_pending
            &&& !(message is Unknown) ==> after.unknown_messages_received
                == state.unknown_messages_received
        }),
{
}

/// The engine and the peer are told just what a message brings: the pieces of the peer
/// as they are from then on, how the peer is, and that it may ask.
pub proof fn lemma_message_tells(state: PeerState, message: MessageValue)
    ensures
        ({
            let step = on_message(state, message);
            &&& message is Choke ==> step.actions == seq![ActionValue::Status(PeerStatus::Busy)]
            &&& message is Unchoke ==> (if state.peer_choking && state.available_pieces.len() > 0
                && state.client_request_queue.len() == 0 {
                step.actions == seq![ActionValue::Status(PeerStatus::Ready)]
            } else {
                step.actions.len() == 0
            })
            &&& message is Interested ==> (if state.client_choking {
                step.actions == seq![ActionValue::Send(MessageValue::Unchoke)]
            } else {
                step.actions.len() == 0
            })
            &&& message is Have && step.keep ==> step.actions == seq![
                ActionValue::Pieces(step.state.available_pieces),
            ]
            &&& message is Bitfield ==> step.actions == seq![
                ActionValue::Pieces(step.state.available_pieces),
                ActionValue::Status(PeerStatus::ConnectionEstablished),
            ]
            &&& message is KeepAlive || message is NotInterested || message is Cancel
                || message is Unknown || !step.keep ==> step.actions.len() == 0
            &&& message matches MessageValue::Request { piece_idx, .. } ==> (
            if state.client_choking {
                step.actions.len() == 0
            } else {
                step.actions == seq![
                    ActionValue::Status(PeerStatus::RequestedPiece(piece_idx as usize)),
                ]
            })
        }),
{
    let step = on_message(state, message);
    if message is Bitfield {
        assert(step.actions =~= seq![
            ActionValue::Pieces(step.state.available_pieces),
            ActionValue::Status(PeerStatus::ConnectionEstablished),
        ]);
    }
}

/// A peer is dropped for a message just where it claims a piece that there is not,
/// sends a block of a piece that is not being fetched, or sends its fifth message of an
/// unknown kind.
pub proof fn lemma_dropped_for_a_message(state: PeerState, message: MessageValue)
    requires
        message_ok(state, message),
    ensures
        !on_message(state, message).keep <==> match message {
            MessageValue::Have { piece } => piece >= state.available_pieces.len(),
            MessageValue::Piece { piece_idx, .. } => match state.client_request {
                Some(request) => request.idx != piece_idx,
                None => true,
            },
            MessageValue::Unknown(_) => state.unknown_messages_received >= 4,
            _ => false,
        },
        message is Unknown ==> on_message(state, message).state.unknown_messages_received
            == state.unknown_messages_received + 1,
        initial(Seq::empty()).unknown_messages_received == 0,
        on_received(state, message).keep == on_message(state, message).keep,
        on_received(state, message).actions == on_message(state, message).actions,
        on_received(state, message).keep ==> !on_received(state, message).state.waiting_for_message,
{
}

/// A connection begins with both sides choking and neither interested, nothing known of
/// the peer's pieces and nothing asked for.
pub proof fn lemma_beginning(completed_pieces: Seq<bool>)
    ensures
        ({
            let state = initial(completed_pieces);
            &&& state.peer_choking && state.client_choking
            &&& !state.peer_interested && !state.client_interested
            &&& state.available_pieces.len() == 0
            &&& state.completed_pieces == completed_pieces
            &&& state.peer_request is None && !state.peer_request_pending
            &&& state.client_request is None && state.client_request_queue.len() == 0
            &&& !state.waiting_for_message && !state.waiting_for_piece_data
        }),
{
}

/// A peer that is not choked, asks for a block and gets the piece from the engine is
/// sent that block of that piece.
pub proof fn lemma_peer_gets_its_block(
    state: PeerState,
    piece: u32,
    block_offset: u32,
    block_length: u32,
    data: Seq<u8>,
    completed: Option<usize>,
)
    requires
        !state.client_choking,
        data.len() > 0,
        block_offset + block_length <= data.len(),
    ensures
        ({
            let asked = on_received(
                state,
                MessageValue::Request { piece_idx: piece, block_offset, block_length },
            );
            let round = on_round(
                asked.state,
                Some(CommandValue::SendPiece { piece: piece as usize, data }),
                completed,
            );
            &&& asked.keep && round.keep
            &&& asked.actions == seq![
                ActionValue::Status(PeerStatus::RequestedPiece(piece as usize)),
            ]
            &&& round.actions.contains(ActionValue::Status(PeerStatus::Busy))
            &&& sends(
                round.actions,
                MessageValue::Piece {
                    piece_idx: piece,
                    block_offset,
                    block_data: data.subrange(
                        block_offset as int,
                        block_offset + block_length,
                    ),
                },
            )
        }),
{
    let asked = on_received(
        state,
        MessageValue::Request { piece_idx: piece, block_offset, block_length },
    );
    let command = Some(CommandValue::SendPiece { piece: piece as usize, data });
    let first = commanded(asked.state, command);
    let second = told(first.state, completed);
    let third = served(second.state);
    let round = on_round(asked.state, command, completed);
    assert(first.keep && second.keep);
    assert(first.actions[0] == ActionValue::Status(PeerStatus::Busy));
    assert(round.actions[0] == first.actions[0]);
    let sent = ActionValue::Send(
        MessageValue::Piece {
            piece_idx: piece,
            block_offset,
            block_data: data.subrange(block_offset as int, block_offset + block_length),
        },
    );
    assert(third.actions[0] == sent);
    let at = first.actions.len() + second.actions.len();
    assert(round.actions[at as int] == sent);
}

/// A command does what it says, and touches nothing that the peer said of itself.
pub proof fn lemma_command_changes(state: PeerState, command: CommandValue)
    ensures
        ({
            let step = on_command(state, command);
            let after = step.state;
            &&& step.keep <==> !(command is Disconnect)
            &&& after.peer_interested == state.peer_interested
            &&& after.completed_pieces == state.completed_pieces
            &&& after.peer_request_pending == state.peer_request_pending
            &&& after.waiting_for_message == state.waiting_for_message
            &&& after.waiting_for_piece_data == state.waiting_for_piece_data
            &&& after.unknown_messages_received == state.unknown_messages_received
            &&& command is SendInterested ==> {
                &&& after.client_interested && !after.client_choking
                &&& sends(step.actions, MessageValue::Interested) <==> !state.client_interested
                &&& sends(step.actions, MessageValue::Unchoke) <==> state.client_choking
                &&& step.actions.len() <= 2
            }
            &&& !(command is SendInterested) ==> after.client_interested == state.client_interested
                && after.client_choking == state.client_choking
            &&& command is SendNotInterested ==> after == state && step.actions == seq![
                ActionValue::Send(MessageValue::NotInterested),
            ]
            &&& command is Disconnect ==> after == state && step.actions.len() == 0
            &&& !(command is RequestPiece) ==> after.client_request == state.client_request
                && after.client_request_queue == state.client_request_queue
            &&& command is RequestPiece ==> step.actions == seq![
                ActionValue::Status(PeerStatus::Busy),
            ]
            &&& !(command is SendPiece) ==> after.peer_request == state.peer_request
            &&& command matches CommandValue::SendPiece { piece, data } ==> (
            match state.peer_request {
                Some(request) => if request.idx == piece {
                    &&& step.actions == seq![ActionValue::Status(PeerStatus::Busy)]
                    &&& after.peer_request matches Some(given) && {
                        &&& given.data == data
                        &&& given.idx == request.idx
                        &&& given.block_offset == request.block_offset
                        &&& given.block_length == request.block_length
                    }
                } else {
                    step.actions.len() == 0 && after == state
                },
                None => step.actions.len() == 0 && after == state,
            })
        }),
{
    let step = on_command(state, command);
    let unchoke = ActionValue::Send(MessageValue::Unchoke);
    let interested = ActionValue::Send(MessageValue::Interested);
    if command is SendInterested {
        if state.client_choking {
            assert(step.actions[0] == unchoke);
            if !state.client_interested {
                assert(step.actions[1] == interested);
            }
        } else if !state.client_interested {
            assert(step.actions[0] == interested);
        }
    }
}

/// The pieces that are to be fetched, the one that is being fetched first, each with
/// its length.
pub open spec fn to_fetch(state: PeerState) -> Seq<(usize, usize)> {
    let queue = state.client_request_queue;
    (match state.client_request {
        Some(request) => seq![(request.idx, request.size)],
        None => Seq::empty(),
    }) + Seq::new(
        queue.len(),
        |i: int| (queue[queue.len() - 1 - i].idx, queue[queue.len() - 1 - i].size),
    )
}

/// The pieces that the engine wants are fetched in the order in which it names them,
/// each in its length: right after the one that is being fetched, before those that
/// were wanted earlier.
pub proof fn lemma_fetched_as_named(state: PeerState, pieces: Seq<(usize, u64)>)
    requires
        forall|i: int| 0 <= i < pieces.len() ==> (#[trigger] pieces[i]).1 <= u32::MAX,
    ensures
        ({
            let named = pieces.map_values(|piece: (usize, u64)| (piece.0, piece.1 as usize));
            let before = to_fetch(state);
            let after = to_fetch(on_command(state, CommandValue::RequestPiece { pieces }).state);
            if state.client_request is Some {
                after == before.take(1) + named + before.skip(1)
            } else {
                after == named + before
            }
        }),
{
    let named = pieces.map_values(|piece: (usize, u64)| (piece.0, piece.1 as usize));
    let before = to_fetch(state);
    let after = to_fetch(on_command(state, CommandValue::RequestPiece { pieces }).state);
    if state.client_request is Some {
        assert(after =~= before.take(1) + named + before.skip(1));
    } else {
        assert(after =~= named + before);
    }
}

/// A piece that is to be fetched begins with nothing received and nothing asked for, and
/// with as many zeros as it has bytes.
pub proof fn lemma_fetching_begins(state: PeerState, piece: usize, length: u64)
    requires
        state.client_request is None,
        length <= u32::MAX,
    ensures
        on_command(
            state,
            CommandValue::RequestPiece { pieces: seq![(piece, length)] },
        ).state.client_request matches Some(request) && {
            &&& request.idx == piece
            &&& request.size == length
            &&& request.data.len() == length
            &&& request.received_data == 0
            &&& request.block_offset == 0
            &&& forall|i: int| 0 <= i < length ==> #[trigger] request.data[i] == 0
        },
{
}

/// A block goes into its place in the piece that is being fetched and touches no
/// other byte of it. The block with which as many bytes have come as the piece has
/// ends it: the engine gets the piece, and the next one is fetched.
pub proof fn lemma_block_is_taken(
    state: PeerState,
    request: RequestValue,
    piece: u32,
    block_offset: u32,
    block: Seq<u8>,
)
    requires
        state.client_request == Some(request),
        request.idx == piece,
        message_ok(state, MessageValue::Piece { piece_idx: piece, block_offset, block_data: block }),
    ensures
        ({
            let step = on_message(
                state,
                MessageValue::Piece { piece_idx: piece, block_offset, block_data: block },
            );
            let data = match step.state.client_request {
                Some(now) if step.actions.len() == 0 => now.data,
                _ => step.actions[0]->PieceData_1,
            };
            &&& step.keep
            &&& data.len() == request.data.len()
            &&& forall|j: int|
                0 <= j < block.len() ==> #[trigger] data[block_offset + j] == block[j]
            &&& forall|j: int|
                0 <= j < data.len() && !(block_offset <= j < block_offset + block.len())
                    ==> #[trigger] data[j] == request.data[j]
            &&& if request.received_data + block.len() == request.size {
                &&& step.actions == seq![ActionValue::PieceData(piece as usize, data)]
                &&& to_fetch(step.state) == to_fetch(state).skip(1)
                &&& !step.state.waiting_for_piece_data
            } else {
                &&& step.actions.len() == 0
                &&& to_fetch(step.state) == to_fetch(state)
                &&& step.state.waiting_for_piece_data == state.waiting_for_piece_data
                &&& step.state.client_request matches Some(now) && now.received_data
                    == request.received_data + block.len() && now.block_offset
                    == request.block_offset
            }
        }),
{
    let step = on_message(
        state,
        MessageValue::Piece { piece_idx: piece, block_offset, block_data: block },
    );
    if request.received_data + block.len() == request.size {
        assert(to_fetch(step.state) =~= to_fetch(state).skip(1));
    } else {
        assert(to_fetch(step.state) =~= to_fetch(state));
    }
}

/// A block of a piece: up to 16384 bytes, all but the last one of that length.
pub open spec fn block_of(content: Seq<u8>, k: int) -> Seq<u8> {
    content.subrange(
        16384 * k,
        if 16384 * (k + 1) < content.len() {
            16384 * (k + 1)
        } else {
            content.len() as int
        },
    )
}

/// The message that brings a block of a piece.
pub open spec fn block_message(piece: u32, content: Seq<u8>, k: int) -> MessageValue {
    MessageValue::Piece {
        piece_idx: piece,
        block_offset: (16384 * k) as u32,
        block_data: block_of(content, k),
    }
}

/// The connection after the first blocks of a piece have come.
pub open spec fn fed(state: PeerState, piece: u32, content: Seq<u8>, count: int) -> PeerState
    decreases count,
{
    if count <= 0 {
        state
    } else {
        on_message(
            fed(state, piece, content, count - 1),
            block_message(piece, content, count - 1),
        ).state
    }
}

proof fn lemma_fed(state: PeerState, piece: u32, content: Seq<u8>, count: int)
    requires
        state.client_request is None,
        0 < content.len() <= u32::MAX,
        0 <= count,
        16384 * count < content.len(),
    ensures
        ({
            let start = on_command(
                state,
                CommandValue::RequestPiece {
                    pieces: seq![(piece as usize, content.len() as u64)],
                },
            ).state;
            fed(start, piece, content, count).client_request matches Some(request) && {
                &&& request.idx == piece
                &&& request.size == content.len()
                &&& request.data.len() == content.len()
                &&& request.received_data == 16384 * count
                &&& forall|j: int|
                    0 <= j < 16384 * count ==> #[trigger] request.data[j] == content[j]
            }
        }),
    decreases count,
{
    let pieces = seq![(piece as usize, content.len() as u64)];
    let start = on_command(state, CommandValue::RequestPiece { pieces }).state;
    if count > 0 {
        lemma_fed(state, piece, content, count - 1);
        let before = fed(start, piece, content, count - 1);
        let request = before.client_request->0;
        lemma_block_is_taken(
            before,
            request,
            piece,
            (16384 * (count - 1)) as u32,
            block_of(content, count - 1),
        );
        let now = fed(start, piece, content, count).client_request->0;
        assert forall|j: int| 0 <= j < 16384 * count implies #[trigger] now.data[j] == content[j] by {
            if j >= 16384 * (count - 1) {
                let i = j - 16384 * (count - 1);
                assert(now.data[16384 * (count - 1) + i] == block_of(content, count - 1)[i]);
            } else {
                assert(now.data[j] == request.data[j]);
            }
        }
    }
}

/// A piece whose blocks come one after the other reaches the engine as it is, once its
/// last block has come and not before.
pub proof fn lemma_piece_is_fetched(state: PeerState, piece: u32, content: Seq<u8>, k: int)
    requires
        state.client_request is None,
        0 < content.len() <= u32::MAX,
        0 <= k,
        16384 * k < content.len(),
    ensures
        ({
            let start = on_command(
                state,
                CommandValue::RequestPiece {
                    pieces: seq![(piece as usize, content.len() as u64)],
                },
            ).state;
            let step = on_message(
                fed(start, piece, content, k),
                block_message(piece, content, k),
            );
            &&& step.keep
            &&& if 16384 * (k + 1) >= content.len() {
                step.actions == seq![ActionValue::PieceData(piece as usize, content)]
            } else {
                step.actions.len() == 0
            }
        }),
{
    let pieces = seq![(piece as usize, content.len() as u64)];
    let start = on_command(state, CommandValue::RequestPiece { pieces }).state;
    lemma_fed(state, piece, content, k);
    let before = fed(start, piece, content, k);
    let request = before.client_request->0;
    let block = block_of(content, k);
    lemma_block_is_taken(before, request, piece, (16384 * k) as u32, block);
    let step = on_message(before, block_message(piece, content, k));
    if 16384 * (k + 1) >= content.len() {
        let data = step.actions[0]->PieceData_1;
        assert forall|j: int| 0 <= j < content.len() implies data[j] == content[j] by {
            if j >= 16384 * k {
                let i = j - 16384 * k;
                assert(data[16384 * k + i] == block[i]);
            } else {
                assert(data[j] == request.data[j]);
            }
        }
        assert(data =~= content);
    }
}

/// Where the peer lets it, the client asks in one round for every block of the piece
/// that is to be fetched, then waits for them and asks for nothing twice.
pub proof fn lemma_every_block_is_asked_for(state: PeerState, piece: u32, content: Seq<u8>)
    requires
        state.client_request is None,
        !state.peer_choking,
        !state.waiting_for_message && !state.waiting_for_piece_data && !state.peer_request_pending,
        0 < content.len() <= u32::MAX,
    ensures
        ({
            let pieces = seq![(piece as usize, content.len() as u64)];
            let step = on_round(state, Some(CommandValue::RequestPiece { pieces }), None);
            let asked = step.actions.skip(1);
            &&& step.keep
            &&& !round_listens(state, Some(CommandValue::RequestPiece { pieces }), None)
            &&& step.actions[0] == ActionValue::Status(PeerStatus::Busy)
            &&& asked.len() == (content.len() + 16383) / 16384
            &&& forall|k: int|
                0 <= k < asked.len() ==> #[trigger] asked[k] == ActionValue::Send(
                    MessageValue::Request {
                        piece_idx: piece,
                        block_offset: (16384 * k) as u32,
                        block_length: block_of(content, k).len() as u32,
                    },
                )
            &&& step.state.waiting_for_piece_data
            &&& round_listens(step.state, None, None)
            &&& !asks_for_block(on_round(step.state, None, None).actions)
        }),
{
    let pieces = seq![(piece as usize, content.len() as u64)];
    let command = Some(CommandValue::RequestPiece { pieces });
    let step = on_round(state, command, None);
    let first = commanded(state, command);
    let second = told(first.state, None);
    let third = served(second.state);
    assert(second.actions.len() == 0);
    assert(step.actions.skip(1) =~= third.actions);
    let asked = step.actions.skip(1);
    assert forall|k: int| 0 <= k < asked.len() implies #[trigger] asked[k] == ActionValue::Send(
        MessageValue::Request {
            piece_idx: piece,
            block_offset: (16384 * k) as u32,
            block_length: block_of(content, k).len() as u32,
        },
    ) by {
        assert(third.actions[k] == asked[k]);
    }
}

/// A client that wants pieces waits for a peer that chokes it, and offers itself to the
/// engine as soon as the peer does not choke it and it has nothing left to fetch.
pub proof fn lemma_idle_round(state: PeerState)
    requires
        !state.peer_request_pending,
    ensures
        ({
            let step = on_round(state, None, None);
            &&& step.keep
            &&& step.actions.contains(ActionValue::Status(PeerStatus::Ready)) <==> (
            state.client_interested && !state.peer_choking && to_fetch(state).len() == 0)
            &&& state.client_interested && state.peer_choking ==> step.state.waiting_for_message
            &&& !(state.client_interested && state.peer_choking) ==> step.state.waiting_for_message
                == state.waiting_for_message
            &&& round_listens(state, None, None) <==> (state.waiting_for_message
                || state.waiting_for_piece_data || (state.client_interested
                && state.peer_choking))
            &&& to_fetch(step.state) == to_fetch(state)
        }),
{
    let first = commanded(state, None);
    let second = told(first.state, None);
    let third = served(second.state);
    let step = on_round(state, None, None);
    assert(step.actions =~= second.actions + third.actions);
    assert(to_fetch(step.state) =~= to_fetch(state));
    if state.client_interested && !state.peer_choking && to_fetch(state).len() == 0 {
        assert(state.client_request is None);
        assert(step.actions[0] == ActionValue::Status(PeerStatus::Ready));
    }
}

/// The peer is told of a piece just when it has become complete.
pub proof fn lemma_complete_piece_is_announced(
    state: PeerState,
    command: Option<CommandValue>,
    piece: usize,
)
    requires
        !(command matches Some(CommandValue::Disconnect)),
    ensures
        sends(
            on_round(state, command, Some(piece)).actions,
            MessageValue::Have { piece: piece as u32 },
        ),
        !announces(on_round(state, command, None).actions),
{
    let first = commanded(state, command);
    let second = told(first.state, Some(piece));
    let have = ActionValue::Send(MessageValue::Have { piece: piece as u32 });
    assert(second.actions[0] == have);
    let at = first.actions.len() as int;
    assert(on_round(state, command, Some(piece)).actions[at] == have);
    lemma_no_announcement(state, command);
}

/// The peer is told of a piece.
pub open spec fn announces(actions: Seq<ActionValue>) -> bool {
    exists|i: int|
        0 <= i < actions.len() && (#[trigger] actions[i]) matches ActionValue::Send(
            MessageValue::Have { .. },
        )
}

proof fn lemma_announcement_is_in_a_part(first: Seq<ActionValue>, second: Seq<ActionValue>)
    ensures
        announces(first + second) ==> announces(first) || announces(second),
{
    let actions = first + second;
    if announces(actions) {
        let i = choose|i: int|
            0 <= i < actions.len() && (#[trigger] actions[i]) matches ActionValue::Send(
                MessageValue::Have { .. },
            );
        if i < first.len() {
            assert(first[i] == actions[i]);
        } else {
            assert(second[i - first.len()] == actions[i]);
        }
    }
}

proof fn lemma_command_announces_nothing(state: PeerState, command: Option<CommandValue>)
    ensures
        !announces(commanded(state, command).actions),
{
}

proof fn lemma_serving_announces_nothing(state: PeerState)
    ensures
        !announces(served(state).actions),
{
}

proof fn lemma_no_announcement(state: PeerState, command: Option<CommandValue>)
    ensures
        !announces(on_round(state, command, None).actions),
{
    let first = commanded(state, command);
    let second = told(first.state, None);
    let third = served(second.state);
    lemma_command_announces_nothing(state, command);
    lemma_serving_announces_nothing(second.state);
    assert(!announces(second.actions));
    lemma_announcement_is_in_a_part(second.actions, third.actions);
    lemma_announcement_is_in_a_part(first.actions, second.actions + third.actions);
}

/// A peer that waits for a block of a piece that the engine has not given is dropped
/// at the next round.
pub proof fn lemma_peer_without_its_piece_is_dropped(state: PeerState, request: RequestValue)
    requires
        state.peer_request == Some(request),
        state.peer_request_pending,
        request.data.len() == 0,
    ensures
        !on_round(state, None, None).keep,
{
}

/// A peer that asked for nothing is owed nothing.
pub proof fn lemma_nothing_is_due(state: PeerState, completed: Option<usize>)
    requires
        state.peer_request is None || !state.peer_request_pending,
    ensures
        on_round(state, None, completed).keep,
        on_round(state, None, completed).state.peer_request == state.peer_request,
        on_round(state, None, completed).state.peer_request_pending == state.peer_request_pending,
        on_round(state, None, completed).state.client_choking == state.client_choking,
        on_round(state, None, completed).state.client_interested == state.client_interested,
        on_round(state, None, completed).state.completed_pieces == state.completed_pieces,
        on_round(state, None, completed).state.unknown_messages_received
            == state.unknown_messages_received,
{
}

/// When a connection ends the engine hears of it, and the peer is told that the piece
/// that was being fetched is no longer wanted.
pub proof fn lemma_farewell(state: PeerState)
    ensures
        farewell(state)[0] == ActionValue::Status(PeerStatus::Disconnected),
        state.client_request is None ==> farewell(state).len() == 1,
        state.client_request matches Some(request) ==> {
            &&& farewell(state).len() == 2
            &&& farewell(state)[1] matches ActionValue::Send(
                MessageValue::Cancel { piece_idx, block_offset, block_length },
            ) && {
                &&& piece_idx == request.idx as u32
                &&& block_offset == request.data.len() as u32
                &&& request.data.len() == request.size ==> block_length == 0
            }
        },
{
}

/// A connection begins with 68 bytes: 19 and the name of the protocol, eight bytes 0,
/// the digest of the torrent, and twenty characters `0` for the client.
pub proof fn lemma_handshake(info_hash: Seq<u8>)
    requires
        info_hash.len() == 20,
    ensures
        ({
            let bytes = handshake_bytes(info_hash);
            &&& bytes.len() == 68
            &&& bytes[0] == 19
            &&& bytes.subrange(1, 20) == seq![
                66u8,
                105,
                116,
                84,
                111,
                114,
                114,
                101,
                110,
                116,
                32,
                112,
                114,
                111,
                116,
                111,
                99,
                111,
                108,
            ]
            &&& forall|i: int| 20 <= i < 28 ==> #[trigger] bytes[i] == 0
            &&& bytes.subrange(28, 48) == info_hash
            &&& forall|i: int| 48 <= i < 68 ==> #[trigger] bytes[i] == 48
        }),
{
    reveal_with_fuel(be_bytes, 9);
    let bytes = handshake_bytes(info_hash);
    assert(bytes.len() == 68);
    assert(bytes.subrange(1, 20) =~= seq![
        66u8,
        105,
        116,
        84,
        111,
        114,
        114,
        101,
        110,
        116,
        32,
        112,
        114,
        111,
        116,
        111,
        99,
        111,
        108,
    ]);
    assert(bytes.subrange(28, 48) =~= info_hash);
}

/// What a peer asks for is noted with its offset and length. The data of the piece that
/// it asked for before is kept for the same piece, and never used for another one.
pub proof fn lemma_what_the_peer_asks_for(
    state: PeerState,
    piece: u32,
    block_offset: u32,
    block_length: u32,
)
    requires
        !state.client_choking,
    ensures
        ({
            let step = on_message(
                state,
                MessageValue::Request { piece_idx: piece, block_offset, block_length },
            );
            &&& step.state.peer_request_pending
            &&& step.state.peer_request matches Some(request) && {
                &&& request.idx == piece
                &&& request.block_offset == block_offset
                &&& request.block_length == block_length
                &&& match state.peer_request {
                    Some(before) if before.idx == piece => request.data == before.data,
                    _ => request.data.len() == 0,
                }
            }
        }),
{
}

/// A peer that asks for a block of the piece that it was sent a block of before is sent
/// the new block out of the same data, without a word to the engine in between.
pub proof fn lemma_next_block_of_the_same_piece(
    state: PeerState,
    request: RequestValue,
    block_offset: u32,
    block_length: u32,
)
    requires
        !state.client_choking,
        state.peer_request == Some(request),
        request.idx <= u32::MAX,
        request.data.len() > 0,
        block_offset + block_length <= request.data.len(),
    ensures
        ({
            let asked = on_received(
                state,
                MessageValue::Request { piece_idx: request.idx as u32, block_offset, block_length },
            );
            let round = on_round(asked.state, None, None);
            &&& round.keep
            &&& !round.state.peer_request_pending
            &&& sends(
                round.actions,
                MessageValue::Piece {
                    piece_idx: request.idx as u32,
                    block_offset,
                    block_data: request.data.subrange(
                        block_offset as int,
                        block_offset + block_length,
                    ),
                },
            )
        }),
{
    let asked = on_received(
        state,
        MessageValue::Request { piece_idx: request.idx as u32, block_offset, block_length },
    );
    let first = commanded(asked.state, None);
    let second = told(first.state, None);
    let third = served(second.state);
    let round = on_round(asked.state, None, None);
    let sent = ActionValue::Send(
        MessageValue::Piece {
            piece_idx: request.idx as u32,
            block_offset,
            block_data: request.data.subrange(block_offset as int, block_offset + block_length),
        },
    );
    assert(third.actions[0] == sent);
    let at = first.actions.len() + second.actions.len();
    assert(round.actions[at as int] == sent);
}

/// A round in which the peer may be asked asks for all that is left of the piece that is
/// being fetched, and for nothing else: the requests follow one another from where the
/// last ones ended to the end of the piece. Nothing of the piece is left to ask for then.
pub proof fn lemma_what_is_left_is_asked_for(state: PeerState, request: RequestValue)
    requires
        state.client_request == Some(request),
        !state.peer_choking,
        !state.waiting_for_message && !state.waiting_for_piece_data && !state.peer_request_pending,
        request.idx <= u32::MAX,
        request.block_offset <= request.size <= u32::MAX,
    ensures
        ({
            let step = on_round(state, None, None);
            let asked = step.actions;
            &&& step.keep
            &&& asked.len() == 0 <==> request.block_offset == request.size
            &&& forall|i: int|
                0 <= i < asked.len() ==> ((#[trigger] asked[i]) matches ActionValue::Send(
                    MessageValue::Request { piece_idx, block_offset, block_length },
                ) && {
                    &&& piece_idx == request.idx
                    &&& 0 < block_length <= 16384
                    &&& block_offset == request.block_offset + 16384 * i
                    &&& i < asked.len() - 1 ==> block_length == 16384
                    &&& i == asked.len() - 1 ==> block_offset + block_length == request.size
                })
            &&& step.state.client_request matches Some(now) && {
                &&& now.block_offset == request.size
                &&& now.data == request.data && now.received_data == request.received_data
                &&& now.idx == request.idx && now.size == request.size
            }
        }),
{
    let first = commanded(state, None);
    let second = told(first.state, None);
    let third = served(second.state);
    let step = on_round(state, None, None);
    assert(second.actions.len() == 0);
    assert(step.actions =~= third.actions);
    let requests = block_requests(
        request.idx as u32,
        request.size as u32,
        request.block_offset,
    );
    lemma_blocks_cover(
        request.idx as u32,
        request.size as u32,
        request.block_offset,
    );
    assert forall|i: int| 0 <= i < step.actions.len() implies #[trigger] step.actions[i]
        == ActionValue::Send(requests[i]) by {
        assert(third.actions[i] == ActionValue::Send(requests[i]));
    }
}

/// Every message can be taken but a block of the piece that is being fetched that does
/// not lie within it or that cannot be counted, and an unknown message that cannot be
/// counted. Every round can be taken but one with pieces too long for the machine, or
/// with a block due that does not lie within its piece.
pub proof fn lemma_what_can_be_taken(state: PeerState, message: MessageValue)
    ensures
        message_ok(state, message) <==> match message {
            MessageValue::Piece { piece_idx, block_offset, block_data } => {
                state.client_request matches Some(request) ==> request.idx == piece_idx ==> {
                    &&& block_data.len() == 0 || block_offset + block_data.len()
                        <= request.data.len()
                    &&& request.received_data + block_data.len() <= usize::MAX
                }
            },
            MessageValue::Unknown(_) => state.unknown_messages_received < 255,
            _ => true,
        },
        round_ok(state, None) <==> (state.peer_request matches Some(
            request,
        ) ==> state.peer_request_pending && request.data.len() > 0 ==> request.block_offset
            + request.block_length <= request.data.len()),
        state.peer_request is None || !state.peer_request_pending
            ==> round_ok(state, Some(CommandValue::SendInterested)),
{
}

} // verus!
