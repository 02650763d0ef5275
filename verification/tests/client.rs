use rusty_torrents::address::PeerAddress;
use rusty_torrents::client::direct::{message_length, MessageKind, Peer};
use rusty_torrents::client::files::{goes_on, join_files, next_byte, read_length, PieceWalk};
use rusty_torrents::client::peer::connection;
use rusty_torrents::client::peer::tcp::{
    bitfield_message, frame_countable, frame_size, get_handshake, try_block_message, PeerOutcome, RequestPlan, TcpPeer,
};
use rusty_torrents::client::peer::{Bitfield, Message, PeerInfo, PeerStatus};
use rusty_torrents::client::piece::Piece;
use rusty_torrents::client::{trackers_list, TorrentInfo};
use rusty_torrents::parser::ParsedTorrent;

fn sha1(data: &[u8]) -> [u8; 20] {
    sha1_smol::Sha1::from(data).digest().bytes()
}

fn v4(last: u32) -> PeerAddress {
    PeerAddress::V4 { ip: last, port: 1 }
}

fn torrent(hashes: &[[u8; 20]]) -> ParsedTorrent {
    let mut data = b"d8:announce1:a13:announce-listl0:1:be4:infod6:lengthi10e4:name1:n12:piece lengthi4e6:pieces".to_vec();
    data.extend_from_slice(format!("{}:", hashes.len() * 20).as_bytes());
    for hash in hashes {
        data.extend_from_slice(hash);
    }
    data.extend_from_slice(b"ee");
    ParsedTorrent::new(data)
}

fn info() -> TorrentInfo {
    let mut info = TorrentInfo::new(torrent(&[sha1(b"aaaa"), sha1(b"bbbb"), sha1(b"cc")]));
    let mut walk = PieceWalk::new();
    assert!(info.add_checked_piece(&mut walk, b"aaaa", 10));
    assert!(!info.add_checked_piece(&mut walk, b"xxxx", 10));
    assert!(!info.add_checked_piece(&mut walk, b"yy", 10));
    assert_eq!(walk, PieceWalk { file: 1, piece: 3, offset: 0 });
    info
}

#[test]
fn piece_is_put_together() {
    let mut piece = Piece::new(16386, sha1(&[3; 16386]).to_vec(), 1, 2, false);
    assert_eq!(piece.get_offsets(), (1, 2));
    assert_eq!(piece.length(), 16386);
    assert_eq!(piece.get_block_request(), (0, 16384));
    assert!(!piece.add_received_bytes(vec![3; 16384]));
    assert_eq!(piece.get_block_request(), (16384, 2));
    assert!(!piece.check_piece());
    assert!(piece.add_received_bytes(vec![3; 2]));
    assert!(piece.check_piece());
    assert_eq!(piece.piece_data().len(), 16386);
    piece.set_finished(true);
    piece.set_requested(true);
    assert!(piece.finished() && piece.requested());
    piece.reset_piece();
    assert!(!piece.finished() && !piece.requested());
    assert_eq!(piece.piece_data().len(), 0);
    assert_eq!(Piece::new(5, vec![], 0, 0, true).get_block_request(), (0, 5));
}

#[test]
fn torrent_info_counts_pieces() {
    let mut info = info();
    assert_eq!(info.get_pieces_count(), 3);
    assert_eq!(info.get_missing_pieces_count(), 2);
    assert!(info.bitfield_client().is_piece_available(0));
    assert!(!info.bitfield_client().is_piece_available(1));
    assert_eq!(info.torrent_pieces()[2].get_offsets(), (0, 8));
    assert_eq!(info.piece_length(), 4);
    assert_eq!(info.data().get_name(), "n");
    info.piece_requested(1);
    info.piece_requested(99);
    assert_eq!(info.get_missing_pieces_count(), 1);
    assert_eq!(info.nth_missing(0), 2);
    for _ in 0..20 {
        assert_eq!(info.get_unfinished_piece_idx(), 2);
    }
    info.release_piece(1);
    assert_eq!(info.get_missing_pieces_count(), 2);
    assert_eq!((info.nth_missing(0), info.nth_missing(1)), (1, 2));
    let drawn: Vec<usize> = (0..200).map(|_| info.get_unfinished_piece_idx()).collect();
    assert!(drawn.contains(&1) && drawn.contains(&2) && !drawn.contains(&0));
    let mut peer = TcpPeer::new(3, 0);
    assert!(matches!(info.piece_to_request(&peer), Some(1 | 2)));
    peer.piece_asked(0);
    assert_eq!(info.piece_to_request(&peer), Some(0));
    info.piece_requested(1);
    info.piece_requested(2);
    assert_eq!(info.piece_to_request(&TcpPeer::new(3, 0)), None);
    assert_eq!(trackers_list(info.data()), vec!["a", "b"]);
}

#[test]
fn torrent_info_keeps_peers() {
    let mut info = info();
    assert!(info.add_peer(v4(1), 5));
    assert!(info.add_peer(v4(2), 6));
    assert!(!info.add_peer(v4(1), 7));
    assert_eq!(info.torrent_peers().len(), 2);
    assert_eq!(info.torrent_peers()[0].start_time(), 5);
    info.peer_left(v4(1));
    assert!(!info.torrent_peers()[0].active());
    info.drop_left_peers();
    assert_eq!(info.torrent_peers().len(), 1);
    assert_eq!(info.torrent_peers()[0].address(), v4(2));
    assert!(info.add_peer(v4(1), 8));
}

#[test]
fn peer_info_notes() {
    let mut info = PeerInfo::new(v4(9), 3);
    assert!(info.active() && info.last_message_sent().is_none() && info.last_message_received().is_none());
    info.add_uploaded(2);
    info.add_uploaded(3);
    info.add_downloaded(7);
    info.set_last_message_sent(Message::Choke);
    info.set_last_message_received(Message::Have(vec![1]));
    info.set_active(false);
    assert_eq!((info.uploaded_total(), info.downloaded_total(), info.active()), (5, 7, false));
    assert_eq!(info.last_message_sent().unwrap().to_text(), "Choke");
    assert_eq!(info.last_message_received().unwrap().clone().to_text(), "Have");
    assert_eq!(PeerStatus::new(), PeerStatus { peer_choked: true, peer_interested: false, client_choked: true, client_interested: false });
}

#[test]
fn tcp_peer_asks_for_blocks() {
    let info = info();
    let mut peer = TcpPeer::new(3, 0);
    let mut info = info;
    assert!(matches!(info.try_request_piece(&peer, 1), Some(RequestPlan::Unavailable)));
    assert!(info.try_request_piece(&peer, 3).is_none());
    info.try_handle_peer_message(&mut peer, Message::Have(vec![0, 0, 0, 1])).unwrap();
    match info.try_request_piece(&peer, 1) {
        Some(RequestPlan::Ask(messages, Message::Request(request))) => {
            assert!(matches!(messages[..], [Message::Unchoke, Message::Interested]));
            assert_eq!(request, vec![0, 0, 0, 13, 6, 0, 0, 0, 1, 0, 0, 0, 0, 0, 0, 0, 4]);
            for message in messages.iter() {
                assert!(TcpPeer::outgoing(message).is_some());
                peer.message_sent(message);
            }
        }
        _ => panic!("no request"),
    }
    peer.piece_asked(1);
    assert!(!peer.should_request());
    assert_eq!(peer.get_assigned_piece(), Some(1));
    assert!(matches!(info.try_request_piece(&peer, 1), Some(RequestPlan::Waiting)));

    let half = info.try_handle_peer_message(&mut peer, Message::Piece(vec![0, 0, 0, 1, 0, 0, 0, 0, b'b', b'b']));
    assert!(matches!(half, Some(PeerOutcome::Keep)));
    assert!(peer.should_request());
    match info.try_request_piece(&peer, 1) {
        Some(RequestPlan::Ask(messages, Message::Request(request))) => {
            assert_eq!(messages.len(), 0);
            assert_eq!(request[9..], [0, 0, 0, 2, 0, 0, 0, 2]);
        }
        _ => panic!("no request"),
    }
    match info.try_handle_peer_message(&mut peer, Message::Piece(vec![0, 0, 0, 1, 0, 0, 0, 2, b'b', b'b'])) {
        Some(PeerOutcome::Write { file, position, data }) => assert_eq!((file, position, data), (0, 4, b"bbbb".to_vec())),
        _ => panic!("nothing to write"),
    }
    assert!(info.torrent_pieces()[1].finished());
    assert_eq!(peer.get_assigned_piece(), None);
}

#[test]
fn tcp_peer_throws_bad_pieces_away() {
    let mut info = info();
    let mut peer = TcpPeer::new(3, 0);
    let unasked = Message::Piece(vec![0, 0, 0, 1, 0, 0, 0, 0, 1]);
    assert!(matches!(info.try_handle_peer_message(&mut peer, unasked.clone()), Some(PeerOutcome::Drop)));
    peer.piece_asked(2);
    assert!(matches!(info.try_handle_peer_message(&mut peer, unasked), Some(PeerOutcome::Drop)));
    let bad = Message::Piece(vec![0, 0, 0, 2, 0, 0, 0, 0, 1, 2]);
    assert!(matches!(info.try_handle_peer_message(&mut peer, bad), Some(PeerOutcome::Keep)));
    assert_eq!(info.torrent_pieces()[2].piece_data().len(), 0);
    assert_eq!(peer.get_assigned_piece(), None);
    peer.piece_asked(7);
    let absent = Message::Piece(vec![0, 0, 0, 7, 0, 0, 0, 0]);
    assert!(matches!(info.try_handle_peer_message(&mut peer, absent), Some(PeerOutcome::Keep)));
    assert_eq!(peer.get_assigned_piece(), None);
    assert!(info.try_handle_peer_message(&mut peer, Message::Piece(vec![0; 7])).is_none());
    assert!(info.try_handle_peer_message(&mut peer, Message::Cancel(vec![0; 11])).is_none());
    assert!(info.try_handle_peer_message(&mut peer, Message::Have(vec![0, 0, 0, 3])).is_none());
    assert!(info.try_handle_peer_message(&mut peer, Message::Request(vec![0, 0, 0, 3, 0, 0, 0, 0, 0, 0, 0, 0])).is_none());
}

#[test]
fn tcp_peer_serves_blocks() {
    let mut info = info();
    let mut peer = TcpPeer::new(3, 0);
    let request = Message::Request(vec![0, 0, 0, 0, 0, 0, 0, 1, 0, 0, 0, 2]);
    assert!(matches!(info.try_handle_peer_message(&mut peer, request.clone()), Some(PeerOutcome::Keep)));
    info.try_handle_peer_message(&mut peer, Message::Unchoke).unwrap();
    assert!(matches!(
        info.try_handle_peer_message(&mut peer, request),
        Some(PeerOutcome::Serve { piece: 0, file: 0, position: 0, block_offset: 1, block_length: 2 })
    ));
    let sent = match try_block_message(6, &b"abcd".to_vec(), 1, 2) {
        Some(Message::Piece(data)) => data,
        _ => panic!("no block"),
    };
    assert_eq!(sent, vec![0, 0, 0, 11, 7, 0, 0, 0, 6, 0, 0, 0, 1, b'b', b'c']);
    match Message::from_data(sent) {
        Some(Message::Piece(body)) => assert_eq!(body, vec![0, 0, 0, 6, 0, 0, 0, 1, b'b', b'c']),
        _ => panic!("no block"),
    }
    assert!(try_block_message(6, &b"abcd".to_vec(), 3, 2).is_none());
}

#[test]
fn tcp_peer_speaks_and_listens() {
    let handshake = get_handshake(&[9; 20]);
    assert_eq!(handshake.len(), 68);
    assert_eq!(&handshake[..20], b"\x13BitTorrent protocol");
    assert_eq!(handshake[20..28], [0; 8]);
    assert_eq!(handshake[28..48], [9; 20]);
    assert_eq!(&handshake[48..], b"eeeeeeeeeeeeeeeeeeee");
    let mut bitfield = Bitfield::empty(3);
    bitfield.piece_finished(2);
    match bitfield_message(&bitfield) {
        Message::Bitfield(data) => assert_eq!(data, vec![0, 0, 0, 2, 5, 0x20]),
        _ => panic!("no bitfield"),
    }
    assert_eq!(TcpPeer::outgoing(&Message::KeepAlive), Some(vec![0, 0, 0, 0, 0]));
    assert_eq!(TcpPeer::outgoing(&Message::NotInterested), Some(vec![0, 0, 0, 1, 3]));
    assert_eq!(TcpPeer::outgoing(&Message::Have(vec![1])), None);
    assert_eq!(TcpPeer::outgoing(&Message::Cancel(vec![1])), None);
    assert_eq!(TcpPeer::outgoing(&Message::Piece(vec![1])), Some(vec![1]));
    assert_eq!(frame_size(&vec![0, 0, 0, 9], 4), Some(13));
    assert_eq!(frame_size(&vec![0, 0, 0, 9], 3), None);
    assert!(!frame_countable(&vec![255, 255, 255, 252]));
    assert!(frame_countable(&vec![255, 255, 255, 251]));
    let mut peer = TcpPeer::new(1, 100);
    assert!(peer.is_responsive(100 + 9_999_999_999));
    assert!(!peer.is_responsive(100 + 10_000_000_000));
    peer.heard(200);
    assert!(peer.is_responsive(100 + 10_000_000_000));
    assert!(peer.is_responsive(0));
}

#[test]
fn connections_read_frames() {
    assert_eq!(connection::message_length(&vec![0, 0, 1, 0], 4), Some(256));
    assert_eq!(connection::message_length(&vec![0, 0, 1, 0], 1), None);
    assert!(connection::read_message(vec![1], 1).is_some());
    assert!(connection::read_message(vec![1], 0).is_none());
    assert!(connection::handshake_complete(68) && !connection::handshake_complete(67));
    assert_eq!(message_length(&[0, 0, 0, 5], 4), Some(5));
    assert_eq!(message_length(&[0, 0, 0, 5], 2), None);
}

#[test]
fn direct_peer_notes_messages() {
    let mut peer = Peer::new(4, v4(1), 10);
    assert_eq!(peer.id(), 4);
    assert_eq!(peer.address(), v4(1));
    assert!(peer.peer_choking_client() && peer.client_choking_peer() && !peer.client_interested());
    assert!(peer.handle_messages(None).is_none());
    assert!(peer.handle_messages(Some(MessageKind::Unchoke)).is_none());
    assert!(!peer.peer_choking_client());
    assert!(peer.handle_messages(Some(MessageKind::Have { piece_index: 9 })).is_none());
    assert!(peer.handle_messages(Some(MessageKind::Have { piece_index: 10 })).is_none());
    assert!(peer.has_piece(9) && !peer.has_piece(8) && !peer.has_piece(10));
    peer.handle_messages(Some(MessageKind::Bitfield { available_pieces: vec![0x80] }));
    assert!(peer.has_piece(0) && !peer.has_piece(1) && peer.has_piece(9));
    peer.handle_messages(Some(MessageKind::Bitfield { available_pieces: vec![0, 0x40, 0xff] }));
    assert!(!peer.has_piece(0) && !peer.has_piece(8) && peer.has_piece(9));
    let passed = peer.handle_messages(Some(MessageKind::Cancel { piece_index: 1, block_offset: 2, block_length: 3 }));
    assert!(matches!(passed, Some(MessageKind::Cancel { piece_index: 1, block_offset: 2, block_length: 3 })));
    assert_eq!(peer.send_message(&MessageKind::Interested), vec![0, 0, 0, 1, 2]);
    peer.message_sent(&MessageKind::Interested);
    peer.message_sent(&MessageKind::Unchoke);
    assert!(peer.client_interested() && !peer.client_choking_peer());
}

#[test]
fn direct_peer_collects_a_piece() {
    let mut peer = Peer::new(0, v4(1), 1);
    peer.set_requested_piece(6);
    peer.set_waiting_for_response(true);
    assert_eq!(peer.requested_piece(), &Some(6));
    assert!(peer.waiting_for_response());
    peer.piece_data_mut().extend_from_slice(&[1, 2]);
    peer.piece_data_mut().push(3);
    assert_eq!(peer.piece_data(), &vec![1, 2, 3]);
    assert_eq!(peer.piece_finished(), vec![1, 2, 3]);
    assert_eq!(peer.piece_data().len(), 0);
    assert_eq!(peer.requested_piece(), &None);
}

#[test]
fn files_are_walked() {
    assert_eq!(read_length(10, 8, 4), Some(2));
    assert_eq!(read_length(10, 6, 4), Some(4));
    assert_eq!(read_length(10, 11, 4), None);
    assert_eq!(read_length(10, u64::MAX, 4), None);
    assert!(goes_on(0, 2, 3, 4));
    assert!(!goes_on(1, 2, 3, 4));
    assert!(!goes_on(0, 2, 4, 4));
    assert_eq!(join_files(vec![1], vec![2, 3, 4], 3), vec![1, 2, 3]);
    assert_eq!(join_files(vec![1], vec![2], 4), vec![1, 2, 0, 0]);
    let (mut file, mut position) = (0, 1);
    next_byte(2, &mut file, &mut position);
    assert_eq!((file, position), (0, 2));
    next_byte(2, &mut file, &mut position);
    assert_eq!((file, position), (1, 1));
    let mut walk = PieceWalk::new();
    walk.go_on(4, 6);
    assert_eq!(walk, PieceWalk { file: 0, piece: 1, offset: 4 });
    walk.go_on(4, 6);
    assert_eq!(walk, PieceWalk { file: 1, piece: 2, offset: 2 });
    walk.go_on(2, 4);
    assert_eq!(walk, PieceWalk { file: 2, piece: 3, offset: 0 });
}

#[test]
fn direct_bitfield_comes_back() {
    let sent = MessageKind::Bitfield { available_pieces: vec![0b1010_0000, 7] }.to_bytes();
    assert_eq!(sent, vec![0, 0, 0, 2, 5, 0b1010_0000, 7]);
    let data = sent[4..].to_vec();
    assert!(MessageKind::can_read(&data));
    assert!(matches!(
        MessageKind::read(data),
        Some(MessageKind::Bitfield { available_pieces }) if available_pieces == vec![0b1010_0000, 7]
    ));
}
