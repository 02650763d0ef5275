use bytes::Bytes;
use rusty_torrents::client::direct::MessageKind;
use rusty_torrents::client::peer as client_peer;
use rusty_torrents::client::peer::message::Message as ClientMessage;
use rusty_torrents::engine::peer::message::Message;
use rusty_torrents::engine::peer::Bitfield;

fn sent(message: Message) -> Vec<u8> {
    message.to_bytes().to_vec()
}

fn read(data: &[u8]) -> Option<Message> {
    Message::try_from_bytes(Bytes::from(data.to_vec()))
}

#[test]
fn messages_without_contents() {
    assert_eq!(sent(Message::KeepAlive), vec![0, 0, 0, 0, 0]);
    assert_eq!(sent(Message::Choke), vec![0, 0, 0, 1, 0]);
    assert_eq!(sent(Message::Unchoke), vec![0, 0, 0, 1, 1]);
    assert_eq!(sent(Message::Interested), vec![0, 0, 0, 1, 2]);
    assert_eq!(sent(Message::NotInterested), vec![0, 0, 0, 1, 3]);
    assert!(matches!(read(&[]), Some(Message::KeepAlive)));
    assert!(matches!(read(&[0]), Some(Message::Choke)));
    assert!(matches!(read(&[1]), Some(Message::Unchoke)));
    assert!(matches!(read(&[2]), Some(Message::Interested)));
    assert!(matches!(read(&[3]), Some(Message::NotInterested)));
    assert!(matches!(read(&[20, 1]), Some(Message::Unknown(20))));
}

#[test]
fn messages_with_contents_are_read_back() {
    let have = sent(Message::Have { piece: 0x01020304 });
    assert_eq!(have, vec![0, 0, 0, 5, 4, 1, 2, 3, 4]);
    assert!(matches!(read(&have[4..]), Some(Message::Have { piece: 0x01020304 })));

    let request = sent(Message::Request { piece_idx: 1, block_offset: 2, block_length: 16384 });
    assert_eq!(request, vec![0, 0, 0, 13, 6, 0, 0, 0, 1, 0, 0, 0, 2, 0, 0, 64, 0]);
    assert!(matches!(
        read(&request[4..]),
        Some(Message::Request { piece_idx: 1, block_offset: 2, block_length: 16384 })
    ));

    let cancel = sent(Message::Cancel { piece_idx: 3, block_offset: 4, block_length: 5 });
    assert_eq!(cancel[3..5], [13, 8]);
    assert!(matches!(
        read(&cancel[4..]),
        Some(Message::Cancel { piece_idx: 3, block_offset: 4, block_length: 5 })
    ));

    let piece = sent(Message::Piece { piece_idx: 9, block_offset: 8, block_data: vec![7, 6] });
    assert_eq!(piece, vec![0, 0, 0, 11, 7, 0, 0, 0, 9, 0, 0, 0, 8, 7, 6]);
    match read(&piece[4..]) {
        Some(Message::Piece { piece_idx, block_offset, block_data }) => {
            assert_eq!((piece_idx, block_offset, block_data), (9, 8, vec![7, 6]));
        }
        _ => panic!("not a piece"),
    }
}

#[test]
fn bitfield_is_filled_up() {
    let pieces = vec![true, false, false, false, false, false, false, true, true, false];
    let data = sent(Message::Bitfield { bitfield: Bitfield::from_pieces(pieces.clone()) });
    assert_eq!(data, vec![0, 0, 0, 3, 5, 0b1000_0001, 0b1000_0000]);
    match read(&data[4..]) {
        Some(Message::Bitfield { bitfield }) => {
            let read = bitfield.into_pieces();
            assert_eq!(read.len(), 16);
            assert_eq!(read[..10], pieces[..]);
            assert!(read[10..].iter().all(|piece| !piece));
        }
        _ => panic!("not a bitfield"),
    }
}

#[test]
fn short_messages_are_refused() {
    assert!(read(&[4, 0, 0, 0]).is_none());
    assert!(read(&[6, 0, 0, 0, 1, 0, 0, 0, 2, 0, 0, 0]).is_none());
    assert!(read(&[7, 0, 0, 0, 1, 0, 0, 0]).is_none());
    assert!(read(&[8]).is_none());
    assert!(read(&[5]).is_some());
}

#[test]
fn message_names() {
    assert_eq!(Message::KeepAlive.to_text(), "Keep Alive");
    assert_eq!(Message::NotInterested.to_text(), "Not Interested");
    assert_eq!(Message::Have { piece: 1 }.to_text(), "Have");
    assert_eq!(ClientMessage::Choke.to_text(), "Choke");
    assert_eq!(client_peer::Message::Piece(vec![]).to_text(), "Piece");
    let copy = Message::Piece { piece_idx: 1, block_offset: 2, block_data: vec![3] }.clone();
    assert_eq!(sent(copy), vec![0, 0, 0, 10, 7, 0, 0, 0, 1, 0, 0, 0, 2, 3]);
}

#[test]
fn bitfields_set_and_tell() {
    let mut bitfield = Bitfield::empty(9);
    assert_eq!(bitfield.len(), 9);
    assert!(!bitfield.is_piece_available(8));
    bitfield.piece_finished(8);
    assert!(bitfield.is_piece_available(8));
    assert_eq!(bitfield.as_bytes(), vec![0, 0b1000_0000]);
    assert_eq!(Bitfield::empty(0).as_bytes(), Vec::<u8>::new());
    let mut other = client_peer::Bitfield::from_peer_data(vec![0x0f]);
    assert!(!other.is_piece_available(3) && other.is_piece_available(4));
    other.piece_finished(0);
    assert_eq!(other.as_bytes(), vec![0x8f]);
    assert_eq!(other.clone().len(), 8);
}

#[test]
fn large_bitfields_count_in_single_precision() {
    for count in [16_777_216usize, 16_777_217, 16_777_219, 16_777_223, 16_777_241] {
        let expected = (count as f32 / 8.0).ceil() as usize;
        assert_eq!(Bitfield::empty(count).as_bytes().len(), expected);
    }
    assert_eq!(Bitfield::empty(16_777_217).as_bytes().len(), 2_097_152);
}

#[test]
fn client_messages_are_read_back() {
    for message in [
        ClientMessage::Choke,
        ClientMessage::Have { piece: 77 },
        ClientMessage::Request { piece_idx: 1, block_offset: 2, block_length: 3 },
        ClientMessage::Piece { piece_idx: 1, block_offset: 2, block_data: vec![1, 2, 3] },
        ClientMessage::Cancel { piece_idx: 1, block_offset: 2, block_length: 3 },
        ClientMessage::Bitfield { bitfield: client_peer::Bitfield::from_peer_data(vec![0xaa, 1]) },
    ] {
        let data = message.to_bytes();
        assert_eq!(u32::from_be_bytes([data[0], data[1], data[2], data[3]]) as usize, data.len() - 4);
        let body = data[4..].to_vec();
        assert!(message.can_send() && ClientMessage::can_read(&body));
        assert_eq!(ClientMessage::from_bytes(body).unwrap().to_bytes(), data);
    }
    assert!(ClientMessage::from_bytes(vec![9]).is_none());
    assert!(!ClientMessage::can_read(&vec![7, 0]));
    assert!(matches!(ClientMessage::from_bytes(vec![]), Some(ClientMessage::KeepAlive)));
}

#[test]
fn raw_messages_keep_their_contents() {
    let data = vec![0, 0, 0, 5, 4, 1, 2, 3, 4];
    assert!(client_peer::Message::is_frame(&data));
    match client_peer::Message::from_data(data) {
        Some(client_peer::Message::Have(body)) => assert_eq!(body, vec![1, 2, 3, 4]),
        _ => panic!("not a have message"),
    }
    assert!(matches!(
        client_peer::Message::from_data(vec![0, 0, 0, 0]),
        Some(client_peer::Message::KeepAlive)
    ));
    assert!(client_peer::Message::from_data(vec![0, 0, 0, 1, 99]).is_none());
    assert!(!client_peer::Message::is_frame(&vec![0, 0, 0, 1]));
    assert!(!client_peer::Message::is_frame(&vec![0, 0]));
}

#[test]
fn direct_messages_on_the_wire() {

    let word = usize::BITS as usize / 8;
    let mut have = vec![0, 0, 0, 4, 4];
    have.extend_from_slice(&258usize.to_be_bytes());
    assert_eq!(MessageKind::Have { piece_index: 258 }.to_bytes(), have);
    assert_eq!(have.len(), 5 + word);
    assert_eq!(
        MessageKind::Bitfield { available_pieces: vec![1, 2] }.to_bytes(),
        vec![0, 0, 0, 2, 5, 1, 2]
    );
    assert_eq!(
        MessageKind::Request { piece_index: 1, block_offset: 2, block_length: 3 }.to_bytes(),
        vec![0, 0, 0, 13, 6, 0, 0, 0, 1, 0, 0, 0, 2, 0, 0, 0, 3]
    );
    let piece = MessageKind::Piece { piece_index: 1, block_offset: 2, block_data: vec![9] }.to_bytes();
    assert_eq!(piece[..5], [0, 0, 0, 1, 7]);
    assert_eq!(piece.len(), 5 + 2 * word + 1);
    let cancel = MessageKind::Cancel { piece_index: 1, block_offset: 2, block_length: 3 }.to_bytes();
    assert_eq!(cancel[..5], [0, 0, 0, 12, 8]);
    assert_eq!(cancel.len(), 5 + 3 * word);
    let data = MessageKind::Request { piece_index: 7, block_offset: 8, block_length: 9 }.to_bytes();
    assert!(matches!(
        MessageKind::read(data[4..].to_vec()),
        Some(MessageKind::Request { piece_index: 7, block_offset: 8, block_length: 9 })
    ));
    assert!(MessageKind::read(vec![]).is_none());
    assert!(MessageKind::read(vec![9, 9]).is_none());
    assert!(!MessageKind::can_read(&vec![9]));
    assert!(!MessageKind::can_read(&vec![4, 1, 2, 3]));
    assert!(MessageKind::can_read(&vec![5]));
    assert!(MessageKind::Choke.to_bytes() == vec![0, 0, 0, 1, 0]);
    assert!(MessageKind::Uninterested.to_bytes() == vec![0, 0, 0, 1, 3]);
}

#[test]
fn unknown_messages_are_not_sent() {
    assert!(!Message::Unknown(9).can_send());
    assert!(Message::Choke.can_send());
    assert!(Message::Piece { piece_idx: 0, block_offset: 0, block_data: vec![1] }.can_send());
}
