//! A peer that is spoken to directly, message by message.
use vstd::prelude::*;

use crate::address::PeerAddress;
use crate::bits::{unpack, unpacked};
use crate::client::peer::message::read_word;
use crate::engine::peer::message::word_at;
use crate::scan::{copy_bytes, copy_range};
use crate::wire::{
    be_bytes, be_value, lemma_be_bytes_len, lemma_be_round_trip, lemma_byte_ranges, push_be,
    slice_get_u32,
};

verus! {

/// A message to or from a peer.
pub enum MessageKind {
    Choke,
    Unchoke,
    Interested,
    Uninterested,
    Have { piece_index: usize },
    Bitfield { available_pieces: Vec<u8> },
    Request { piece_index: usize, block_offset: usize, block_length: usize },
    Piece { piece_index: usize, block_offset: usize, block_data: Vec<u8> },
    Cancel { piece_index: usize, block_offset: usize, block_length: usize },
}

/// What a message says.
pub enum KindValue {
    Choke,
    Unchoke,
    Interested,
    Uninterested,
    Have { piece_index: usize },
    Bitfield { available_pieces: Seq<u8> },
    Request { piece_index: usize, block_offset: usize, block_length: usize },
    Piece { piece_index: usize, block_offset: usize, block_data: Seq<u8> },
    Cancel { piece_index: usize, block_offset: usize, block_length: usize },
}

impl View for MessageKind {
    type V = KindValue;

    open spec fn view(&self) -> KindValue {
        match *self {
            MessageKind::Choke => KindValue::Choke,
            MessageKind::Unchoke => KindValue::Unchoke,
            MessageKind::Interested => KindValue::Interested,
            MessageKind::Uninterested => KindValue::Uninterested,
            MessageKind::Have { piece_index } => KindValue::Have { piece_index },
            MessageKind::Bitfield { available_pieces } => KindValue::Bitfield {
                available_pieces: available_pieces@,
            },
            MessageKind::Request { piece_index, block_offset, block_length } => {
                KindValue::Request { piece_index, block_offset, block_length }
            },
            MessageKind::Piece { piece_index, block_offset, block_data } => KindValue::Piece {
                piece_index,
                block_offset,
                block_data: block_data@,
            },
            MessageKind::Cancel { piece_index, block_offset, block_length } => KindValue::Cancel {
                piece_index,
                block_offset,
                block_length,
            },
        }
    }
}

/// A number in as many bytes as a machine word has.
pub open spec fn machine_word(n: usize) -> Seq<u8> {
    be_bytes(n as nat, (usize::BITS / 8) as nat)
}

/// The bytes by which a message is sent. Requests have numbers of four bytes, the
/// other messages numbers as long as a machine word.
pub open spec fn kind_bytes(message: KindValue) -> Seq<u8> {
    match message {
        KindValue::Choke => seq![0u8, 0, 0, 1, 0],
        KindValue::Unchoke => seq![0u8, 0, 0, 1, 1],
        KindValue::Interested => seq![0u8, 0, 0, 1, 2],
        KindValue::Uninterested => seq![0u8, 0, 0, 1, 3],
        KindValue::Have { piece_index } => seq![0u8, 0, 0, 4, 4] + machine_word(piece_index),
        KindValue::Bitfield { available_pieces } => be_bytes(
            available_pieces.len() as u32 as nat,
            4,
        ).push(5) + available_pieces,
        KindValue::Request { piece_index, block_offset, block_length } => seq![0u8, 0, 0, 13, 6]
            + be_bytes(piece_index as u32 as nat, 4) + be_bytes(block_offset as u32 as nat, 4)
            + be_bytes(block_length as u32 as nat, 4),
        KindValue::Piece { piece_index, block_offset, block_data } => be_bytes(
            block_data.len() as u32 as nat,
            4,
        ).push(7) + machine_word(piece_index) + machine_word(block_offset) + block_data,
        KindValue::Cancel { piece_index, block_offset, block_length } => seq![0u8, 0, 0, 12, 8]
            + machine_word(piece_index) + machine_word(block_offset) + machine_word(block_length),
    }
}

/// The bytes behind the length of a message are enough for their kind; an unknown
/// kind has at least one byte behind it.
pub open spec fn readable(data: Seq<u8>) -> bool {
    data.len() > 0 ==> if data[0] == 4 {
        data.len() >= 5
    } else if data[0] == 6 || data[0] == 8 {
        data.len() >= 13
    } else if data[0] == 7 {
        data.len() >= 9
    } else if data[0] > 8 {
        data.len() >= 2
    } else {
        true
    }
}

/// What the bytes behind the length of a message say; nothing where there are
/// none, or their kind is unknown.
pub open spec fn kind_of(data: Seq<u8>) -> Option<KindValue> {
    if data.len() == 0 {
        None
    } else if data[0] == 0 {
        Some(KindValue::Choke)
    } else if data[0] == 1 {
        Some(KindValue::Unchoke)
    } else if data[0] == 2 {
        Some(KindValue::Interested)
    } else if data[0] == 3 {
        Some(KindValue::Uninterested)
    } else if data[0] == 4 {
        Some(KindValue::Have { piece_index: word_at(data, 1) as usize })
    } else if data[0] == 5 {
        Some(KindValue::Bitfield { available_pieces: data.skip(1) })
    } else if data[0] == 6 {
        Some(
            KindValue::Request {
                piece_index: word_at(data, 1) as usize,
                block_offset: word_at(data, 5) as usize,
                block_length: word_at(data, 9) as usize,
            },
        )
    } else if data[0] == 7 {
        Some(
            KindValue::Piece {
                piece_index: word_at(data, 1) as usize,
                block_offset: word_at(data, 5) as usize,
                block_data: data.skip(9),
            },
        )
    } else if data[0] == 8 {
        Some(
            KindValue::Cancel {
                piece_index: word_at(data, 1) as usize,
                block_offset: word_at(data, 5) as usize,
                block_length: word_at(data, 9) as usize,
            },
        )
    } else {
        None
    }
}

/// What is known of a peer.
#[verifier::ext_equal]
pub struct PeerValue {
    pub id: usize,
    pub address: PeerAddress,
    pub peer_interested: bool,
    pub peer_choking_client: bool,
    pub client_interested: bool,
    pub client_choking_peer: bool,
    pub waiting_for_response: bool,
    pub available_pieces: Seq<bool>,
    pub piece_data: Seq<u8>,
    pub requested_piece: Option<usize>,
}

/// A peer of which nothing is known.
pub open spec fn new_peer(id: usize, address: PeerAddress, torrent_pieces: usize) -> PeerValue {
    PeerValue {
        id,
        address,
        peer_interested: false,
        peer_choking_client: true,
        client_interested: false,
        client_choking_peer: true,
        waiting_for_response: false,
        available_pieces: Seq::new(torrent_pieces as nat, |i: int| false),
        piece_data: Seq::empty(),
        requested_piece: None,
    }
}

/// The pieces with the flags of a bitfield, as far as it reaches.
pub open spec fn with_bitfield(pieces: Seq<bool>, data: Seq<u8>) -> Seq<bool> {
    Seq::new(
        pieces.len(),
        |i: int|
            if i < 8 * data.len() {
                unpacked(data)[i]
            } else {
                pieces[i]
            },
    )
}

/// What a message makes of a peer.
pub open spec fn after_message(peer: PeerValue, message: KindValue) -> PeerValue {
    match message {
        KindValue::Choke => PeerValue { peer_choking_client: true, ..peer },
        KindValue::Unchoke => PeerValue { peer_choking_client: false, ..peer },
        KindValue::Interested => PeerValue { peer_interested: true, ..peer },
        KindValue::Uninterested => PeerValue { peer_interested: false, ..peer },
        KindValue::Have { piece_index } => PeerValue {
            available_pieces: if piece_index < peer.available_pieces.len() {
                peer.available_pieces.update(piece_index as int, true)
            } else {
                peer.available_pieces
            },
            ..peer
        },
        KindValue::Bitfield { available_pieces } => PeerValue {
            available_pieces: with_bitfield(peer.available_pieces, available_pieces),
            ..peer
        },
        _ => peer,
    }
}

/// The message is left to whoever keeps the pieces.
pub open spec fn is_passed_on(message: KindValue) -> bool {
    message is Request || message is Piece || message is Cancel
}

/// What a message that was sent makes of a peer.
pub open spec fn after_sending(peer: PeerValue, message: KindValue) -> PeerValue {
    match message {
        KindValue::Choke => PeerValue { client_choking_peer: true, ..peer },
        KindValue::Unchoke => PeerValue { client_choking_peer: false, ..peer },
        KindValue::Interested => PeerValue { client_interested: true, ..peer },
        KindValue::Uninterested => PeerValue { client_interested: false, ..peer },
        _ => peer,
    }
}

impl MessageKind {
    /// Whether the bytes behind the length of a message are enough for their kind.
    pub fn can_read(data: &Vec<u8>) -> (can: bool)
        ensures
            can == readable(data@),
    {
        if data.len() == 0 {
            return true;
        }
        let kind: u8 = data[0];
        if kind == 4 {
            data.len() >= 5
        } else if kind == 6 || kind == 8 {
            data.len() >= 13
        } else if kind == 7 {
            data.len() >= 9
        } else if kind > 8 {
            data.len() >= 2
        } else {
            true
        }
    }

    /// Reads the bytes behind the length of a message; nothing where there are
    /// none, or their kind is unknown.
    pub fn read(data: Vec<u8>) -> (message: Option<MessageKind>)
        requires
            readable(data@),
        ensures
            match message {
                Some(m) => kind_of(data@) == Some(m@),
                None => kind_of(data@) is None,
            },
    {
        if data.len() == 0 {
            return None;
        }
        let kind: u8 = data[0];
        let slice = data.as_slice();
        if kind == 0 {
            Some(MessageKind::Choke)
        } else if kind == 1 {
            Some(MessageKind::Unchoke)
        } else if kind == 2 {
            Some(MessageKind::Interested)
        } else if kind == 3 {
            Some(MessageKind::Uninterested)
        } else if kind == 4 {
            Some(MessageKind::Have { piece_index: read_word(slice, 1) as usize })
        } else if kind == 5 {
            let available_pieces = copy_range(slice, 1, data.len());
            assert(available_pieces@ =~= data@.skip(1));
            Some(MessageKind::Bitfield { available_pieces })
        } else if kind == 6 {
            Some(
                MessageKind::Request {
                    piece_index: read_word(slice, 1) as usize,
                    block_offset: read_word(slice, 5) as usize,
                    block_length: read_word(slice, 9) as usize,
                },
            )
        } else if kind == 7 {
            let block_data = copy_range(slice, 9, data.len());
            assert(block_data@ =~= data@.skip(9));
            Some(
                MessageKind::Piece {
                    piece_index: read_word(slice, 1) as usize,
                    block_offset: read_word(slice, 5) as usize,
                    block_data,
                },
            )
        } else if kind == 8 {
            Some(
                MessageKind::Cancel {
                    piece_index: read_word(slice, 1) as usize,
                    block_offset: read_word(slice, 5) as usize,
                    block_length: read_word(slice, 9) as usize,
                },
            )
        } else {
            None
        }
    }

    /// The bytes by which the message is sent.
    pub fn to_bytes(&self) -> (data: Vec<u8>)
        ensures
            data@ == kind_bytes(self@),
    {
        match self {
            MessageKind::Choke => vec![0, 0, 0, 1, 0],
            MessageKind::Unchoke => vec![0, 0, 0, 1, 1],
            MessageKind::Interested => vec![0, 0, 0, 1, 2],
            MessageKind::Uninterested => vec![0, 0, 0, 1, 3],
            MessageKind::Have { piece_index } => {
                let mut message: Vec<u8> = vec![0, 0, 0, 4, 4];
                assert(message@ =~= seq![0u8, 0, 0, 4, 4]);
                push_machine_word(&mut message, *piece_index);
                message
            },
            MessageKind::Bitfield { available_pieces } => {
                let mut message: Vec<u8> = Vec::new();
                push_be(&mut message, available_pieces.len() as u32 as u64, 4);
                message.push(5);
                let mut pieces = copy_bytes(available_pieces.as_slice());
                message.append(&mut pieces);
                assert(message@ =~= kind_bytes(self@));
                message
            },
            MessageKind::Request { piece_index, block_offset, block_length } => {
                let mut message: Vec<u8> = vec![0, 0, 0, 13, 6];
                assert(message@ =~= seq![0u8, 0, 0, 13, 6]);
                push_be(&mut message, *piece_index as u32 as u64, 4);
                push_be(&mut message, *block_offset as u32 as u64, 4);
                push_be(&mut message, *block_length as u32 as u64, 4);
                message
            },
            MessageKind::Piece { piece_index, block_offset, block_data } => {
                let mut message: Vec<u8> = Vec::new();
                push_be(&mut message, block_data.len() as u32 as u64, 4);
                message.push(7);
                assert(message@ =~= be_bytes(block_data@.len() as u32 as nat, 4).push(7));
                push_machine_word(&mut message, *piece_index);
                push_machine_word(&mut message, *block_offset);
                let mut block = copy_bytes(block_data.as_slice());
                message.append(&mut block);
                message
            },
            MessageKind::Cancel { piece_index, block_offset, block_length } => {
                let mut message: Vec<u8> = vec![0, 0, 0, 12, 8];
                assert(message@ =~= seq![0u8, 0, 0, 12, 8]);
                push_machine_word(&mut message, *piece_index);
                push_machine_word(&mut message, *block_offset);
                push_machine_word(&mut message, *block_length);
                message
            },
        }
    }
}

/// Puts a number at the end, in as many bytes as a machine word has.
fn push_machine_word(data: &mut Vec<u8>, n: usize)
    ensures
        final(data)@ == old(data)@ + machine_word(n),
{
    push_be(data, n as u64, usize::BITS / 8);
}

/// The length of the message that follows, where the four bytes of the length
/// came whole.
pub fn message_length(length_buf: &[u8; 4], bytes: usize) -> (length: Option<usize>)
    ensures
        match length {
            Some(n) => bytes == 4 && n == be_value(length_buf@),
            None => bytes != 4,
        },
{
    if bytes == 4 {
        assert(length_buf@.take(4) =~= length_buf@);
        Some(slice_get_u32(length_buf.as_slice()) as usize)
    } else {
        None
    }
}

/// A peer.
pub struct Peer {
    id: usize,
    address: PeerAddress,
    peer_interested: bool,
    peer_choking_client: bool,
    client_interested: bool,
    client_choking_peer: bool,
    waiting_for_response: bool,
    available_pieces: Vec<bool>,
    piece_data: Vec<u8>,
    requested_piece: Option<usize>,
}

impl View for Peer {
    type V = PeerValue;

    closed spec fn view(&self) -> PeerValue {
        PeerValue {
            id: self.id,
            address: self.address,
            peer_interested: self.peer_interested,
            peer_choking_client: self.peer_choking_client,
            client_interested: self.client_interested,
            client_choking_peer: self.client_choking_peer,
            waiting_for_response: self.waiting_for_response,
            available_pieces: self.available_pieces@,
            piece_data: self.piece_data@,
            requested_piece: self.requested_piece,
        }
    }
}

impl Peer {
    /// A peer of which nothing is known.
    pub fn new(id: usize, address: PeerAddress, torrent_pieces: usize) -> (peer: Peer)
        requires
            torrent_pieces <= isize::MAX,
        ensures
            peer@ == new_peer(id, address, torrent_pieces),
    {
        let peer = Peer {
            id,
            address,
            peer_interested: false,
            peer_choking_client: true,
            client_interested: false,
            client_choking_peer: true,
            waiting_for_response: false,
            available_pieces: vec![false; torrent_pieces],
            piece_data: Vec::new(),
            requested_piece: None,
        };
        assert(peer@ =~= new_peer(id, address, torrent_pieces));
        peer
    }

    /// Takes a message of the peer, and passes it on where it is about blocks.
    pub fn handle_messages(&mut self, message: Option<MessageKind>) -> (passed: Option<MessageKind>)
        ensures
            match message {
                Some(m) => final(self)@ == after_message(old(self)@, m@) && passed == (
                if is_passed_on(m@) {
                    Some(m)
                } else {
                    None
                }),
                None => final(self)@ == old(self)@ && passed is None,
            },
    {
        let ghost before = self@;
        match message {
            Some(MessageKind::Choke) => {
                self.peer_choking_client = true;
                None
            },
            Some(MessageKind::Unchoke) => {
                self.peer_choking_client = false;
                None
            },
            Some(MessageKind::Interested) => {
                self.peer_interested = true;
                None
            },
            Some(MessageKind::Uninterested) => {
                self.peer_interested = false;
                None
            },
            Some(MessageKind::Have { piece_index }) => {
                if piece_index < self.available_pieces.len() {
                    self.available_pieces.set(piece_index, true);
                }
                None
            },
            Some(MessageKind::Bitfield { available_pieces }) => {
                self.take_bitfield(&available_pieces);
                None
            },
            other => other,
        }
    }

    /// Notes the pieces of a bitfield, as far as there are such pieces.
    fn take_bitfield(&mut self, data: &Vec<u8>)
        ensures
            final(self)@ == (PeerValue {
                available_pieces: with_bitfield(old(self)@.available_pieces, data@),
                ..old(self)@
            }),
    {
        let ghost before = self@;
        let flags = unpack(data.as_slice());
        let mut i: usize = 0;
        while i < flags.len() && i < self.available_pieces.len()
            invariant
                i <= flags@.len(),
                i <= self.available_pieces@.len(),
                flags@ == unpacked(data@),
                flags@.len() == 8 * data@.len(),
                self.available_pieces@.len() == before.available_pieces.len(),
                self@ == (PeerValue { available_pieces: self.available_pieces@, ..before }),
                forall|k: int| 0 <= k < i ==> #[trigger] self.available_pieces@[k] == flags@[k],
                forall|k: int|
                    i <= k < self.available_pieces@.len() ==> #[trigger] self.available_pieces@[k]
                        == before.available_pieces[k],
            decreases flags@.len() - i,
        {
            self.available_pieces.set(i, flags[i]);
            i = i + 1;
        }
        assert(self.available_pieces@ =~= with_bitfield(before.available_pieces, data@));
    }

    /// The bytes by which a message is sent.
    pub fn send_message(&self, message: &MessageKind) -> (data: Vec<u8>)
        ensures
            data@ == kind_bytes(message@),
    {
        message.to_bytes()
    }

    /// Notes that a message was sent.
    pub fn message_sent(&mut self, message: &MessageKind)
        ensures
            final(self)@ == after_sending(old(self)@, message@),
    {
        match message {
            MessageKind::Choke => {
                self.client_choking_peer = true;
            },
            MessageKind::Unchoke => {
                self.client_choking_peer = false;
            },
            MessageKind::Interested => {
                self.client_interested = true;
            },
            MessageKind::Uninterested => {
                self.client_interested = false;
            },
            _ => {},
        }
    }

    /// Whether the peer has the piece.
    pub fn has_piece(&self, index: usize) -> (has: bool)
        ensures
            has == (index < self@.available_pieces.len() && self@.available_pieces[index as int]),
    {
        index < self.available_pieces.len() && self.available_pieces[index]
    }

    /// The peer's number.
    pub fn id(&self) -> (id: usize)
        ensures
            id == self@.id,
    {
        self.id
    }

    /// The peer's address.
    pub fn address(&self) -> (address: PeerAddress)
        ensures
            address == self@.address,
    {
        self.address
    }

    /// Whether the peer keeps the client waiting.
    pub fn peer_choking_client(&self) -> (choking: bool)
        ensures
            choking == self@.peer_choking_client,
    {
        self.peer_choking_client
    }

    /// Whether the client wants something of the peer.
    pub fn client_interested(&self) -> (interested: bool)
        ensures
            interested == self@.client_interested,
    {
        self.client_interested
    }

    /// Whether the client keeps the peer waiting.
    pub fn client_choking_peer(&self) -> (choking: bool)
        ensures
            choking == self@.client_choking_peer,
    {
        self.client_choking_peer
    }

    /// The piece that the peer was asked for.
    pub fn requested_piece(&self) -> (piece: &Option<usize>)
        ensures
            *piece == self@.requested_piece,
    {
        &self.requested_piece
    }

    /// Notes the piece that the peer was asked for.
    pub fn set_requested_piece(&mut self, index: usize)
        ensures
            final(self)@ == (PeerValue { requested_piece: Some(index), ..old(self)@ }),
    {
        self.requested_piece = Some(index);
    }

    /// Whether an answer is waited for.
    pub fn waiting_for_response(&self) -> (waiting: bool)
        ensures
            waiting == self@.waiting_for_response,
    {
        self.waiting_for_response
    }

    /// Notes whether an answer is waited for.
    pub fn set_waiting_for_response(&mut self, waiting_for_response: bool)
        ensures
            final(self)@ == (PeerValue { waiting_for_response, ..old(self)@ }),
    {
        self.waiting_for_response = waiting_for_response;
    }

    /// What came of the piece.
    pub fn piece_data(&self) -> (data: &Vec<u8>)
        ensures
            data@ == self@.piece_data,
    {
        &self.piece_data
    }

    /// What came of the piece, to be added to.
    pub fn piece_data_mut(&mut self) -> (data: &mut Vec<u8>)
        ensures
            data@ == old(self)@.piece_data,
            final(self)@ == (PeerValue { piece_data: final(data)@, ..old(self)@ }),
    {
        &mut self.piece_data
    }

    /// Gives what came of the piece, and begins anew.
    pub fn piece_finished(&mut self) -> (data: Vec<u8>)
        ensures
            data@ == old(self)@.piece_data,
            final(self)@ == (PeerValue {
                piece_data: Seq::empty(),
                requested_piece: None,
                ..old(self)@
            }),
    {
        let data = copy_bytes(self.piece_data.as_slice());
        self.piece_data = Vec::new();
        self.requested_piece = None;
        assert(self.piece_data@ =~= Seq::empty());
        data
    }
}

/// Messages about blocks leave a peer as it is and are passed on; all others are
/// kept.
pub proof fn lemma_passed_on_changes_nothing(peer: PeerValue, message: KindValue)
    ensures
        is_passed_on(message) ==> after_message(peer, message) == peer,
        after_message(peer, message).available_pieces.len() == peer.available_pieces.len(),
{
}

/// A message is read back from the bytes behind its length, where its numbers fit
/// in four bytes.
///
/// A block, and a piece or a block that is told of or cancelled, are sent with
/// numbers as long as a machine word and read with numbers of four bytes: where a
/// machine word is longer, they come back only when all their numbers are zero, and
/// a block never does.
pub proof fn lemma_kind_round_trip(message: KindValue)
    requires
        match message {
            KindValue::Have { piece_index } => usize::BITS == 32 || piece_index == 0,
            KindValue::Request { piece_index, block_offset, block_length } => piece_index
                <= u32::MAX && block_offset <= u32::MAX && block_length <= u32::MAX,
            KindValue::Piece { .. } => usize::BITS == 32,
            KindValue::Cancel { piece_index, block_offset, block_length } => usize::BITS == 32 || (
            piece_index == 0 && block_offset == 0 && block_length == 0),
            _ => true,
        },
    ensures
        readable(kind_bytes(message).skip(4)),
        kind_of(kind_bytes(message).skip(4)) == Some(message),
{
    broadcast use lemma_be_bytes_len;

    lemma_byte_ranges();
    let data = kind_bytes(message).skip(4);
    match message {
        KindValue::Have { piece_index } => {
            lemma_word_start(piece_index);
            assert(data.skip(1) =~= machine_word(piece_index));
        },
        KindValue::Bitfield { available_pieces } => {
            assert(data.skip(1) =~= available_pieces);
        },
        KindValue::Request { piece_index, block_offset, block_length } => {
            lemma_be_round_trip(piece_index as nat, 4);
            lemma_be_round_trip(block_offset as nat, 4);
            lemma_be_round_trip(block_length as nat, 4);
            assert(data.skip(1).take(4) =~= be_bytes(piece_index as nat, 4));
            assert(data.skip(5).take(4) =~= be_bytes(block_offset as nat, 4));
            assert(data.skip(9).take(4) =~= be_bytes(block_length as nat, 4));
        },
        KindValue::Piece { piece_index, block_offset, block_data } => {
            lemma_word_start(piece_index);
            lemma_word_start(block_offset);
            assert(data.skip(1).take(4) =~= machine_word(piece_index));
            assert(data.skip(5).take(4) =~= machine_word(block_offset));
            assert(data.skip(9) =~= block_data);
        },
        KindValue::Cancel { piece_index, block_offset, block_length } => {
            lemma_word_start(piece_index);
            lemma_word_start(block_offset);
            lemma_word_start(block_length);
            if usize::BITS == 32 {
                assert(data.skip(1).take(4) =~= machine_word(piece_index));
                assert(data.skip(5).take(4) =~= machine_word(block_offset));
                assert(data.skip(9).take(4) =~= machine_word(block_length));
            } else {
                assert(data.skip(1).take(4) =~= machine_word(piece_index).take(4));
                assert(data.skip(5).take(4) =~= machine_word(piece_index).skip(4));
                assert(data.skip(9).take(4) =~= machine_word(block_offset).take(4));
            }
        },
        _ => {},
    }
}

/// Where a machine word has four bytes, its bytes give the number back. Where it is
/// longer, both halves of zero are zero.
proof fn lemma_word_start(n: usize)
    ensures
        usize::BITS == 32 ==> machine_word(n).len() == 4 && be_value(machine_word(n)) == n
            && machine_word(n).take(4) == machine_word(n),
        usize::BITS != 32 && n == 0 ==> machine_word(n).len() == 8 && be_value(
            machine_word(n).take(4),
        ) == 0 && be_value(machine_word(n).skip(4)) == 0,
{
    broadcast use lemma_be_bytes_len;

    lemma_byte_ranges();
    if usize::BITS == 32 {
        lemma_be_round_trip(n as nat, 4);
        assert(machine_word(n).take(4) =~= machine_word(n));
    } else if n == 0 {
        reveal_with_fuel(be_bytes, 9);
        reveal_with_fuel(be_value, 5);
        let zeros = seq![0u8, 0, 0, 0];
        assert(machine_word(n).take(4) =~= zeros);
        assert(machine_word(n).skip(4) =~= zeros);
        assert(zeros.drop_last() =~= seq![0u8, 0, 0]);
        assert(zeros.drop_last().drop_last() =~= seq![0u8, 0]);
        assert(zeros.drop_last().drop_last().drop_last() =~= seq![0u8]);
    }
}

} // verus!
