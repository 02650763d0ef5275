//! What is known of a peer, and the messages as they come from it.
use vstd::prelude::*;

use crate::address::PeerAddress;
use crate::bits::{byte_count, pack, packed, unpack, unpacked};
use crate::scan::copy_bytes;
use crate::wire::{be_value, slice_get_u32};

pub mod connection;
pub mod message;
pub mod tcp;

verus! {

/// Who waits for whom, and who wants something of whom.
#[derive(Clone, Copy, Debug, PartialEq, Eq, Structural)]
pub struct PeerStatus {
    pub peer_choked: bool,
    pub peer_interested: bool,
    pub client_choked: bool,
    pub client_interested: bool,
}

impl PeerStatus {
    /// Both sides are choked, and none wants anything.
    pub fn new() -> (status: PeerStatus)
        ensures
            status == (PeerStatus {
                peer_choked: true,
                peer_interested: false,
                client_choked: true,
                client_interested: false,
            }),
    {
        PeerStatus {
            peer_choked: true,
            peer_interested: false,
            client_choked: true,
            client_interested: false,
        }
    }
}

/// Which pieces somebody has.
pub struct Bitfield {
    pieces: Vec<bool>,
}

impl View for Bitfield {
    type V = Seq<bool>;

    closed spec fn view(&self) -> Seq<bool> {
        self.pieces@
    }
}

impl Bitfield {
    /// No piece out of so many.
    pub fn empty(pieces: usize) -> (bitfield: Bitfield)
        requires
            pieces <= isize::MAX,
        ensures
            bitfield@ == Seq::new(pieces as nat, |i: int| false),
    {
        let bitfield = Bitfield { pieces: vec![false; pieces] };
        assert(bitfield@ =~= Seq::new(pieces as nat, |i: int| false));
        bitfield
    }

    /// The pieces that a peer says it has, eight to a byte.
    pub fn from_peer_data(pieces: Vec<u8>) -> (bitfield: Bitfield)
        ensures
            bitfield@ == unpacked(pieces@),
    {
        Bitfield { pieces: unpack(pieces.as_slice()) }
    }

    /// The pieces, eight to a byte.
    pub fn as_bytes(&self) -> (data: Vec<u8>)
        ensures
            data@ == packed(self@, byte_count(self@.len())),
    {
        pack(&self.pieces)
    }

    /// The number of pieces.
    pub fn len(&self) -> (pieces: usize)
        ensures
            pieces == self@.len(),
    {
        self.pieces.len()
    }

    /// Whether the piece is there.
    pub fn is_piece_available(&self, piece: u32) -> (available: bool)
        requires
            piece < self@.len(),
        ensures
            available == self@[piece as int],
    {
        self.pieces[piece as usize]
    }

    /// Marks the piece as there.
    pub fn piece_finished(&mut self, piece: u32)
        requires
            piece < old(self)@.len(),
        ensures
            final(self)@ == old(self)@.update(piece as int, true),
    {
        self.pieces.set(piece as usize, true);
    }
}

impl Clone for Bitfield {
    fn clone(&self) -> (copy: Bitfield)
        ensures
            copy@ == self@,
    {
        let mut pieces: Vec<bool> = Vec::with_capacity(self.pieces.len());
        let mut i: usize = 0;
        while i < self.pieces.len()
            invariant
                i <= self.pieces@.len(),
                pieces@ == self.pieces@.take(i as int),
            decreases self.pieces@.len() - i,
        {
            pieces.push(self.pieces[i]);
            i = i + 1;
            assert(pieces@ =~= self.pieces@.take(i as int));
        }
        assert(pieces@ =~= self.pieces@);
        Bitfield { pieces }
    }
}

/// A message with its contents as they came.
pub enum Message {
    KeepAlive,
    Choke,
    Unchoke,
    Interested,
    NotInterested,
    Have(Vec<u8>),
    Bitfield(Vec<u8>),
    Request(Vec<u8>),
    Piece(Vec<u8>),
    Cancel(Vec<u8>),
}

/// What a message holds.
pub enum RawMessage {
    KeepAlive,
    Choke,
    Unchoke,
    Interested,
    NotInterested,
    Have(Seq<u8>),
    Bitfield(Seq<u8>),
    Request(Seq<u8>),
    Piece(Seq<u8>),
    Cancel(Seq<u8>),
}

impl View for Message {
    type V = RawMessage;

    open spec fn view(&self) -> RawMessage {
        match *self {
            Message::KeepAlive => RawMessage::KeepAlive,
            Message::Choke => RawMessage::Choke,
            Message::Unchoke => RawMessage::Unchoke,
            Message::Interested => RawMessage::Interested,
            Message::NotInterested => RawMessage::NotInterested,
            Message::Have(data) => RawMessage::Have(data@),
            Message::Bitfield(data) => RawMessage::Bitfield(data@),
            Message::Request(data) => RawMessage::Request(data@),
            Message::Piece(data) => RawMessage::Piece(data@),
            Message::Cancel(data) => RawMessage::Cancel(data@),
        }
    }
}

/// The data is long enough to be told: a length, and a kind where the length is
/// not zero.
pub open spec fn is_frame(data: Seq<u8>) -> bool {
    data.len() >= 4 && (be_value(data.take(4)) > 0 ==> data.len() >= 5)
}

/// What a message with its length says, or nothing where its kind is unknown.
pub open spec fn frame_message(data: Seq<u8>) -> Option<RawMessage> {
    if be_value(data.take(4)) == 0 {
        Some(RawMessage::KeepAlive)
    } else {
        let body = data.skip(5);
        let kind = data[4];
        if kind == 0 {
            Some(RawMessage::Choke)
        } else if kind == 1 {
            Some(RawMessage::Unchoke)
        } else if kind == 2 {
            Some(RawMessage::Interested)
        } else if kind == 3 {
            Some(RawMessage::NotInterested)
        } else if kind == 4 {
            Some(RawMessage::Have(body))
        } else if kind == 5 {
            Some(RawMessage::Bitfield(body))
        } else if kind == 6 {
            Some(RawMessage::Request(body))
        } else if kind == 7 {
            Some(RawMessage::Piece(body))
        } else if kind == 8 {
            Some(RawMessage::Cancel(body))
        } else {
            None
        }
    }
}

/// What a message is called.
pub open spec fn raw_label(message: RawMessage) -> Seq<char> {
    match message {
        RawMessage::KeepAlive => "Keep Alive"@,
        RawMessage::Choke => "Choke"@,
        RawMessage::Unchoke => "Unchoke"@,
        RawMessage::Interested => "Interested"@,
        RawMessage::NotInterested => "Not Interested"@,
        RawMessage::Have(_) => "Have"@,
        RawMessage::Bitfield(_) => "Bitfield"@,
        RawMessage::Request(_) => "Request"@,
        RawMessage::Piece(_) => "Piece"@,
        RawMessage::Cancel(_) => "Cancel"@,
    }
}

impl Message {
    /// Whether the data is long enough to be told.
    pub fn is_frame(data: &Vec<u8>) -> (frame: bool)
        ensures
            frame == is_frame(data@),
    {
        data.len() >= 5 || (data.len() == 4 && slice_get_u32(data.as_slice()) == 0)
    }

    /// Reads a message with its length, or nothing where its kind is unknown.
    pub fn from_data(data: Vec<u8>) -> (message: Option<Message>)
        requires
            is_frame(data@),
        ensures
            match message {
                Some(m) => frame_message(data@) == Some(m@),
                None => frame_message(data@) is None,
            },
    {
        let length: u32 = slice_get_u32(data.as_slice());
        if length == 0 {
            return Some(Message::KeepAlive);
        }
        let kind: u8 = data[4];
        let mut data = data;
        let ghost all = data@;
        let body = data.split_off(5);
        assert(body@ =~= all.skip(5));
        if kind == 0 {
            Some(Message::Choke)
        } else if kind == 1 {
            Some(Message::Unchoke)
        } else if kind == 2 {
            Some(Message::Interested)
        } else if kind == 3 {
            Some(Message::NotInterested)
        } else if kind == 4 {
            Some(Message::Have(body))
        } else if kind == 5 {
            Some(Message::Bitfield(body))
        } else if kind == 6 {
            Some(Message::Request(body))
        } else if kind == 7 {
            Some(Message::Piece(body))
        } else if kind == 8 {
            Some(Message::Cancel(body))
        } else {
            None
        }
    }

    /// What the message is called.
    pub fn to_text(&self) -> (text: String)
        ensures
            text@ == raw_label(self@),
    {
        match self {
            Message::KeepAlive => "Keep Alive".to_owned(),
            Message::Choke => "Choke".to_owned(),
            Message::Unchoke => "Unchoke".to_owned(),
            Message::Interested => "Interested".to_owned(),
            Message::NotInterested => "Not Interested".to_owned(),
            Message::Have(_) => "Have".to_owned(),
            Message::Bitfield(_) => "Bitfield".to_owned(),
            Message::Request(_) => "Request".to_owned(),
            Message::Piece(_) => "Piece".to_owned(),
            Message::Cancel(_) => "Cancel".to_owned(),
        }
    }
}

impl Clone for Message {
    fn clone(&self) -> (copy: Message)
        ensures
            copy@ == self@,
    {
        match self {
            Message::KeepAlive => Message::KeepAlive,
            Message::Choke => Message::Choke,
            Message::Unchoke => Message::Unchoke,
            Message::Interested => Message::Interested,
            Message::NotInterested => Message::NotInterested,
            Message::Have(data) => Message::Have(copy_bytes(data.as_slice())),
            Message::Bitfield(data) => Message::Bitfield(copy_bytes(data.as_slice())),
            Message::Request(data) => Message::Request(copy_bytes(data.as_slice())),
            Message::Piece(data) => Message::Piece(copy_bytes(data.as_slice())),
            Message::Cancel(data) => Message::Cancel(copy_bytes(data.as_slice())),
        }
    }
}

/// What is shown of a peer.
pub struct PeerInfoValue {
    pub active: bool,
    pub uploaded_total: usize,
    pub downloaded_total: usize,
    pub last_message_sent: Option<RawMessage>,
    pub last_message_received: Option<RawMessage>,
    pub address: PeerAddress,
    pub start_time: u128,
}

/// A message that may be missing, as it is meant.
pub open spec fn message_value(message: Option<Message>) -> Option<RawMessage> {
    match message {
        Some(message) => Some(message@),
        None => None,
    }
}

/// What is shown of a peer. Times are in nanoseconds.
pub struct PeerInfo {
    active: bool,
    uploaded_total: usize,
    downloaded_total: usize,
    last_message_sent: Option<Message>,
    last_message_received: Option<Message>,
    address: PeerAddress,
    start_time: u128,
}

impl View for PeerInfo {
    type V = PeerInfoValue;

    closed spec fn view(&self) -> PeerInfoValue {
        PeerInfoValue {
            active: self.active,
            uploaded_total: self.uploaded_total,
            downloaded_total: self.downloaded_total,
            last_message_sent: message_value(self.last_message_sent),
            last_message_received: message_value(self.last_message_received),
            address: self.address,
            start_time: self.start_time,
        }
    }
}

/// A peer of which nothing was heard.
pub open spec fn new_peer_info(address: PeerAddress, start_time: u128) -> PeerInfoValue {
    PeerInfoValue {
        active: true,
        uploaded_total: 0,
        downloaded_total: 0,
        last_message_sent: None,
        last_message_received: None,
        address,
        start_time,
    }
}

impl PeerInfo {
    /// A peer of which nothing was heard.
    pub fn new(address: PeerAddress, start_time: u128) -> (info: PeerInfo)
        ensures
            info@ == new_peer_info(address, start_time),
    {
        PeerInfo {
            active: true,
            uploaded_total: 0,
            downloaded_total: 0,
            last_message_sent: None,
            last_message_received: None,
            address,
            start_time,
        }
    }

    /// Whether the peer is connected.
    pub fn active(&self) -> (active: bool)
        ensures
            active == self@.active,
    {
        self.active
    }

    /// The bytes that were sent.
    pub fn uploaded_total(&self) -> (bytes: usize)
        ensures
            bytes == self@.uploaded_total,
    {
        self.uploaded_total
    }

    /// The bytes that were received.
    pub fn downloaded_total(&self) -> (bytes: usize)
        ensures
            bytes == self@.downloaded_total,
    {
        self.downloaded_total
    }

    /// The last message that was sent.
    pub fn last_message_sent(&self) -> (message: Option<&Message>)
        ensures
            match message {
                Some(m) => self@.last_message_sent == Some(m@),
                None => self@.last_message_sent is None,
            },
    {
        match &self.last_message_sent {
            Some(message) => Some(message),
            None => None,
        }
    }

    /// The last message that was received.
    pub fn last_message_received(&self) -> (message: Option<&Message>)
        ensures
            match message {
                Some(m) => self@.last_message_received == Some(m@),
                None => self@.last_message_received is None,
            },
    {
        match &self.last_message_received {
            Some(message) => Some(message),
            None => None,
        }
    }

    /// The peer's address.
    pub fn address(&self) -> (address: PeerAddress)
        ensures
            address == self@.address,
    {
        self.address
    }

    /// When the connection began.
    pub fn start_time(&self) -> (time: u128)
        ensures
            time == self@.start_time,
    {
        self.start_time
    }

    /// Notes whether the peer is connected.
    pub fn set_active(&mut self, active: bool)
        ensures
            final(self)@ == (PeerInfoValue { active, ..old(self)@ }),
    {
        self.active = active;
    }

    /// Notes the last message that was sent.
    pub fn set_last_message_sent(&mut self, last_message: Message)
        ensures
            final(self)@ == (PeerInfoValue {
                last_message_sent: Some(last_message@),
                ..old(self)@
            }),
    {
        self.last_message_sent = Some(last_message);
    }

    /// Notes the last message that was received.
    pub fn set_last_message_received(&mut self, last_message_received: Message)
        ensures
            final(self)@ == (PeerInfoValue {
                last_message_received: Some(last_message_received@),
                ..old(self)@
            }),
    {
        self.last_message_received = Some(last_message_received);
    }

    /// Counts bytes that were sent.
    pub fn add_uploaded(&mut self, value: usize)
        requires
            old(self)@.uploaded_total + value <= usize::MAX,
        ensures
            final(self)@ == (PeerInfoValue {
                uploaded_total: (old(self)@.uploaded_total + value) as usize,
                ..old(self)@
            }),
    {
        self.uploaded_total = self.uploaded_total + value;
    }

    /// Counts bytes that were received.
    pub fn add_downloaded(&mut self, value: usize)
        requires
            old(self)@.downloaded_total + value <= usize::MAX,
        ensures
            final(self)@ == (PeerInfoValue {
                downloaded_total: (old(self)@.downloaded_total + value) as usize,
                ..old(self)@
            }),
    {
        self.downloaded_total = self.downloaded_total + value;
    }
}

} // verus!
