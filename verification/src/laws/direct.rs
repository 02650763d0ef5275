//! The peers that are spoken to directly.
use vstd::prelude::*;

use crate::address::PeerAddress;
use crate::client::direct::{
    KindValue, PeerValue, after_message, after_sending, is_passed_on, kind_bytes, kind_of,
    machine_word, new_peer, readable, with_bitfield,
};
use crate::engine::peer::message::word_at;
use crate::laws::wire::{is_flag, lemma_big_endian, quad};
use crate::wire::{be_value, lemma_be_bytes_len, lemma_be_round_trip, lemma_byte_ranges};

verus! {

/// A peer begins with both sides choking and neither interested, without pieces.
pub proof fn lemma_beginning(id: usize, address: PeerAddress, pieces: usize)
    ensures
        ({
            let peer = new_peer(id, address, pieces);
            &&& peer.id == id && peer.address == address
            &&& peer.peer_choking_client && peer.client_choking_peer
            &&& !peer.peer_interested && !peer.client_interested
            &&& !peer.waiting_for_response && peer.requested_piece is None
            &&& peer.piece_data.len() == 0
            &&& peer.available_pieces.len() == pieces
            &&& forall|i: int| 0 <= i < pieces ==> !#[trigger] peer.available_pieces[i]
        }),
{
}

/// A message of the peer changes only what it says of the peer.
pub proof fn lemma_message_changes(peer: PeerValue, message: KindValue)
    ensures
        ({
            let after = after_message(peer, message);
            &&& message is Choke ==> after.peer_choking_client
            &&& message is Unchoke ==> !after.peer_choking_client
            &&& !(message is Choke) && !(message is Unchoke) ==> after.peer_choking_client
                == peer.peer_choking_client
            &&& message is Interested ==> after.peer_interested
            &&& message is Uninterested ==> !after.peer_interested
            &&& !(message is Interested) && !(message is Uninterested) ==> after.peer_interested
                == peer.peer_interested
            &&& after.client_choking_peer == peer.client_choking_peer
            &&& after.client_interested == peer.client_interested
            &&& after.available_pieces.len() == peer.available_pieces.len()
            &&& message matches KindValue::Have { piece_index } ==> {
                &&& piece_index < peer.available_pieces.len()
                    ==> after.available_pieces[piece_index as int]
                &&& forall|k: int|
                    0 <= k < peer.available_pieces.len() && k != piece_index
                        ==> #[trigger] after.available_pieces[k] == peer.available_pieces[k]
            }
            &&& message matches KindValue::Bitfield { available_pieces } ==> forall|k: int|
                0 <= k < peer.available_pieces.len() ==> if k < 8 * available_pieces.len() {
                    is_flag(available_pieces[k / 8], k % 8, #[trigger] after.available_pieces[k])
                } else {
                    after.available_pieces[k] == peer.available_pieces[k]
                }
            &&& !(message is Have) && !(message is Bitfield) ==> after.available_pieces
                == peer.available_pieces
            &&& after.id == peer.id && after.address == peer.address
            &&& after.waiting_for_response == peer.waiting_for_response
            &&& after.piece_data == peer.piece_data
            &&& after.requested_piece == peer.requested_piece
            &&& is_passed_on(message) <==> message is Request || message is Piece || message
                is Cancel
        }),
{
}

/// A message that was sent changes only what the client says of itself.
pub proof fn lemma_sending_changes(peer: PeerValue, message: KindValue)
    ensures
        ({
            let after = after_sending(peer, message);
            &&& message is Choke ==> after.client_choking_peer
            &&& message is Unchoke ==> !after.client_choking_peer
            &&& !(message is Choke) && !(message is Unchoke) ==> after.client_choking_peer
                == peer.client_choking_peer
            &&& message is Interested ==> after.client_interested
            &&& message is Uninterested ==> !after.client_interested
            &&& !(message is Interested) && !(message is Uninterested) ==> after.client_interested
                == peer.client_interested
            &&& after.peer_choking_client == peer.peer_choking_client
            &&& after.peer_interested == peer.peer_interested
            &&& after.available_pieces == peer.available_pieces
            &&& after.id == peer.id && after.address == peer.address
            &&& after.waiting_for_response == peer.waiting_for_response
            &&& after.piece_data == peer.piece_data
            &&& after.requested_piece == peer.requested_piece
        }),
{
}

proof fn lemma_word(data: Seq<u8>, at: int)
    requires
        0 <= at,
        at + 4 <= data.len(),
    ensures
        word_at(data, at) == quad(data, at),
{
    let four = data.skip(at).take(4);
    lemma_big_endian(four, 0);
    assert(four[0] == data[at] && four[1] == data[at + 1] && four[2] == data[at + 2] && four[3]
        == data[at + 3]);
}

/// The first byte says what a message is; its numbers stand behind it in four bytes
/// each, and what comes behind them is the block or the field of bits.
pub proof fn lemma_message_is_read_by_its_layout(data: Seq<u8>)
    requires
        readable(data),
        data.len() > 0,
    ensures
        match kind_of(data) {
            None => data[0] > 8,
            Some(KindValue::Choke) => data[0] == 0,
            Some(KindValue::Unchoke) => data[0] == 1,
            Some(KindValue::Interested) => data[0] == 2,
            Some(KindValue::Uninterested) => data[0] == 3,
            Some(KindValue::Have { piece_index }) => data[0] == 4 && piece_index == quad(data, 1),
            Some(KindValue::Bitfield { available_pieces }) => data[0] == 5 && available_pieces
                == data.skip(1),
            Some(KindValue::Request { piece_index, block_offset, block_length }) => {
                &&& data[0] == 6
                &&& piece_index == quad(data, 1)
                &&& block_offset == quad(data, 5)
                &&& block_length == quad(data, 9)
            },
            Some(KindValue::Piece { piece_index, block_offset, block_data }) => {
                &&& data[0] == 7
                &&& piece_index == quad(data, 1)
                &&& block_offset == quad(data, 5)
                &&& block_data == data.skip(9)
            },
            Some(KindValue::Cancel { piece_index, block_offset, block_length }) => {
                &&& data[0] == 8
                &&& piece_index == quad(data, 1)
                &&& block_offset == quad(data, 5)
                &&& block_length == quad(data, 9)
            },
        },
        kind_of(Seq::empty()) is None,
{
    if data.len() >= 5 {
        lemma_word(data, 1);
    }
    if data.len() >= 9 {
        lemma_word(data, 5);
    }
    if data.len() >= 13 {
        lemma_word(data, 9);
    }
}

/// A message can be read where it has its numbers.
pub proof fn lemma_what_a_message_needs(data: Seq<u8>)
    requires
        data.len() > 0,
    ensures
        data[0] <= 3 || data[0] == 5 ==> readable(data),
        data[0] == 4 ==> (readable(data) <==> data.len() >= 5),
        data[0] == 6 || data[0] == 8 ==> (readable(data) <==> data.len() >= 13),
        data[0] == 7 ==> (readable(data) <==> data.len() >= 9),
        data[0] > 8 ==> (readable(data) <==> data.len() >= 2),
{
}

/// A message is written with its kind in the fifth byte; a request with the number of
/// its bytes before it, and its numbers in four bytes each behind it.
pub proof fn lemma_message_is_written_by_its_layout(message: KindValue)
    ensures
        ({
            let bytes = kind_bytes(message);
            &&& bytes.len() >= 5
            &&& message is Choke ==> bytes == seq![0u8, 0, 0, 1, 0]
            &&& message is Unchoke ==> bytes == seq![0u8, 0, 0, 1, 1]
            &&& message is Interested ==> bytes == seq![0u8, 0, 0, 1, 2]
            &&& message is Uninterested ==> bytes == seq![0u8, 0, 0, 1, 3]
            &&& message is Have ==> bytes[4] == 4 && quad(bytes, 0) == 4
            &&& message matches KindValue::Bitfield { available_pieces } ==> bytes[4] == 5
                && bytes.skip(5) == available_pieces && (available_pieces.len() <= u32::MAX
                ==> quad(bytes, 0) == available_pieces.len())
            &&& message matches KindValue::Request { piece_index, block_offset, block_length } ==> {
                &&& bytes.len() == 17 && quad(bytes, 0) == 13 && bytes[4] == 6
                &&& piece_index <= u32::MAX ==> quad(bytes, 5) == piece_index
                &&& block_offset <= u32::MAX ==> quad(bytes, 9) == block_offset
                &&& block_length <= u32::MAX ==> quad(bytes, 13) == block_length
            }
            &&& message matches KindValue::Piece { block_data, .. } ==> {
                &&& bytes[4] == 7
                &&& bytes.skip(bytes.len() - block_data.len()) == block_data
                &&& block_data.len() <= u32::MAX ==> quad(bytes, 0) == block_data.len()
            }
            &&& message is Cancel ==> bytes[4] == 8 && quad(bytes, 0) == 12
        }),
{
    broadcast use lemma_be_bytes_len;

    let bytes = kind_bytes(message);
    match message {
        KindValue::Bitfield { available_pieces } => {
            assert(bytes.skip(5) =~= available_pieces);
            if available_pieces.len() <= u32::MAX {
                lemma_big_endian(Seq::empty(), available_pieces.len());
            }
        },
        KindValue::Request { piece_index, block_offset, block_length } => {
            lemma_big_endian(Seq::empty(), piece_index as u32 as nat);
            lemma_big_endian(Seq::empty(), block_offset as u32 as nat);
            lemma_big_endian(Seq::empty(), block_length as u32 as nat);
        },
        KindValue::Piece { piece_index, block_offset, block_data } => {
            assert(bytes.skip(bytes.len() - block_data.len()) =~= block_data);
            if block_data.len() <= u32::MAX {
                lemma_big_endian(Seq::empty(), block_data.len());
            }
        },
        _ => {},
    }
}

/// A field of bits that is shorter than the torrent leaves the pieces behind it as they
/// are.
pub proof fn lemma_short_bitfield(pieces: Seq<bool>, data: Seq<u8>)
    ensures
        with_bitfield(pieces, data).len() == pieces.len(),
        with_bitfield(pieces, Seq::empty()) == pieces,
{
    assert(with_bitfield(pieces, Seq::empty()) =~= pieces);
}

/// The numbers of the messages that are written in machine words stand one behind the
/// other behind the kind, the most significant byte first.
pub proof fn lemma_machine_words(message: KindValue)
    ensures
        ({
            let bytes = kind_bytes(message);
            let word = (usize::BITS / 8) as int;
            &&& message matches KindValue::Have { piece_index } ==> bytes.len() == 5 + word
                && be_value(bytes.skip(5)) == piece_index
            &&& message matches KindValue::Piece { piece_index, block_offset, block_data } ==> {
                &&& bytes.len() == 5 + 2 * word + block_data.len()
                &&& be_value(bytes.subrange(5, 5 + word)) == piece_index
                &&& be_value(bytes.subrange(5 + word, 5 + 2 * word)) == block_offset
            }
            &&& message matches KindValue::Cancel { piece_index, block_offset, block_length } ==> {
                &&& bytes.len() == 5 + 3 * word
                &&& be_value(bytes.subrange(5, 5 + word)) == piece_index
                &&& be_value(bytes.subrange(5 + word, 5 + 2 * word)) == block_offset
                &&& be_value(bytes.subrange(5 + 2 * word, 5 + 3 * word)) == block_length
            }
        }),
{
    broadcast use lemma_be_bytes_len;

    let bytes = kind_bytes(message);
    let word = (usize::BITS / 8) as int;
    match message {
        KindValue::Have { piece_index } => {
            lemma_machine_word(piece_index);
            assert(bytes.skip(5) =~= machine_word(piece_index));
        },
        KindValue::Piece { piece_index, block_offset, block_data } => {
            lemma_machine_word(piece_index);
            lemma_machine_word(block_offset);
            assert(bytes.subrange(5, 5 + word) =~= machine_word(piece_index));
            assert(bytes.subrange(5 + word, 5 + 2 * word) =~= machine_word(block_offset));
        },
        KindValue::Cancel { piece_index, block_offset, block_length } => {
            lemma_machine_word(piece_index);
            lemma_machine_word(block_offset);
            lemma_machine_word(block_length);
            assert(bytes.subrange(5, 5 + word) =~= machine_word(piece_index));
            assert(bytes.subrange(5 + word, 5 + 2 * word) =~= machine_word(block_offset));
            assert(bytes.subrange(5 + 2 * word, 5 + 3 * word) =~= machine_word(block_length));
        },
        _ => {},
    }
}

proof fn lemma_machine_word(n: usize)
    ensures
        machine_word(n).len() == usize::BITS / 8,
        be_value(machine_word(n)) == n,
{
    broadcast use lemma_be_bytes_len;

    lemma_byte_ranges();
    if usize::BITS == 32 {
        lemma_be_round_trip(n as nat, 4);
    } else {
        lemma_be_round_trip(n as nat, 8);
    }
}

} // verus!
