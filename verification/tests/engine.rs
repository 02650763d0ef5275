use rusty_torrents::address::PeerAddress;
use rusty_torrents::bencode::ParsedTorrent;
use rusty_torrents::engine::peer::connection;
use rusty_torrents::engine::peer::message::Message;
use rusty_torrents::engine::peer::state::PeerStatus;
use rusty_torrents::engine::peer::tcp::{PeerAction, PeerCommand, PeerReply, TcpPeer, Turn};
use rusty_torrents::engine::peer::Bitfield;
use rusty_torrents::engine::transfer::{
    extension, join_parts, try_calculate_pieces_info, try_split, Added, Span, Transfer,
};
use rusty_torrents::engine::{Engine, PeerTask, PieceOutcome, StatusNews};

fn sha1(data: &[u8]) -> [u8; 20] {
    sha1_smol::Sha1::from(data).digest().bytes()
}

fn torrent(files: &[(&str, u64)], piece_length: u64, hashes: &[[u8; 20]], trackers: &[&str]) -> ParsedTorrent {
    let mut data = b"d8:announce8:http://a13:announce-listl".to_vec();
    for tracker in trackers {
        data.extend_from_slice(format!("l{}:{}e", tracker.len(), tracker).as_bytes());
    }
    data.extend_from_slice(b"e4:infod5:filesl");
    for (name, size) in files {
        data.extend_from_slice(format!("d6:lengthi{}e4:pathl{}:{}ee", size, name.len(), name).as_bytes());
    }
    data.extend_from_slice(format!("e4:name1:t12:piece lengthi{}e6:pieces{}:", piece_length, hashes.len() * 20).as_bytes());
    for hash in hashes {
        data.extend_from_slice(hash);
    }
    data.extend_from_slice(b"ee");
    ParsedTorrent::new(data)
}

fn three_pieces() -> ParsedTorrent {
    torrent(
        &[("a", 6), ("b", 4)],
        4,
        &[sha1(b"aaaa"), sha1(b"aabb"), sha1(b"bb")],
        &["http://b", "", "http://a"],
    )
}

fn v4(last: u32) -> PeerAddress {
    PeerAddress::V4 { ip: last, port: 6881 }
}

fn keeps(reply: &PeerReply) -> bool {
    reply.keep
}

fn new_peer(pieces: usize) -> TcpPeer {
    TcpPeer::new([5; 20], vec![false; pieces])
}

#[test]
fn handshake_names_protocol_and_torrent() {
    let data = new_peer(1).handshake().to_vec();
    assert_eq!(data.len(), 68);
    assert_eq!(data[0], 19);
    assert_eq!(&data[1..20], b"BitTorrent protocol");
    assert_eq!(data[20..28], [0; 8]);
    assert_eq!(data[28..48], [5; 20]);
    assert_eq!(&data[48..], b"00000000000000000000");
    assert!(TcpPeer::handshake_accepted(data.clone(), 68));
    assert!(!TcpPeer::handshake_accepted(data, 67));
    assert!(!TcpPeer::handshake_accepted(vec![18; 68], 68));
    assert!(!TcpPeer::handshake_accepted(vec![19; 67], 67));
    assert!(!TcpPeer::handshake_accepted(vec![], 0));
}

#[test]
fn message_lengths_are_bounded() {
    assert_eq!(TcpPeer::message_length(&vec![0, 0, 1, 2], 4), Some(258));
    assert_eq!(TcpPeer::message_length(&vec![0, 0, 255, 255], 4), Some(65535));
    assert_eq!(TcpPeer::message_length(&vec![0, 1, 0, 0], 4), None);
    assert_eq!(TcpPeer::message_length(&vec![0, 0, 0, 0], 3), None);
    assert_eq!(connection::frame_length(&vec![0, 1, 0, 0], 4), Some(65536));
    assert_eq!(connection::frame_length(&vec![0, 1, 0, 0], 2), None);
    assert!(connection::handshake_complete(68));
    assert!(!connection::handshake_complete(0));
}

#[test]
fn peer_fetches_a_piece() {
    let mut peer = new_peer(2);
    match peer.establish_connection() {
        Message::Bitfield { bitfield } => assert_eq!(bitfield.into_pieces(), vec![false, false]),
        _ => panic!("no bitfield"),
    }
    assert!(peer.listens());

    let reply = peer.receive(Message::Bitfield { bitfield: Bitfield::from_pieces(vec![true, true]) });
    assert!(keeps(&reply));
    assert_eq!(reply.actions.len(), 2);
    assert!(matches!(&reply.actions[0], PeerAction::Pieces(pieces) if pieces == &vec![true, true]));
    assert!(matches!(reply.actions[1], PeerAction::Status(PeerStatus::ConnectionEstablished)));
    assert!(!peer.listens());

    let reply = peer.try_round(Some(PeerCommand::SendInterested), None).unwrap();
    assert_eq!(reply.actions.len(), 2);
    assert!(matches!(reply.actions[0], PeerAction::Send(Message::Unchoke)));
    assert!(matches!(reply.actions[1], PeerAction::Send(Message::Interested)));
    assert!(peer.listens());

    let reply = peer.receive(Message::Unchoke);
    assert!(matches!(reply.actions[..], [PeerAction::Status(PeerStatus::Ready)]));

    let reply = peer
        .try_round(Some(PeerCommand::RequestPiece { pieces: vec![(1, 16385), (0, 3)] }), Some(4))
        .unwrap();
    assert!(matches!(reply.actions[0], PeerAction::Status(PeerStatus::Busy)));
    assert!(matches!(reply.actions[1], PeerAction::Send(Message::Have { piece: 4 })));
    assert!(matches!(
        reply.actions[2],
        PeerAction::Send(Message::Request { piece_idx: 1, block_offset: 0, block_length: 16384 })
    ));
    assert!(matches!(
        reply.actions[3],
        PeerAction::Send(Message::Request { piece_idx: 1, block_offset: 16384, block_length: 1 })
    ));
    assert_eq!(reply.actions.len(), 4);

    let last = Message::Piece { piece_idx: 1, block_offset: 16384, block_data: vec![8] };
    assert!(peer.can_handle(&last));
    assert_eq!(peer.receive(last).actions.len(), 0);
    let reply = peer.receive(Message::Piece { piece_idx: 1, block_offset: 0, block_data: vec![7; 16384] });
    match &reply.actions[..] {
        [PeerAction::PieceData(1, data)] => {
            assert_eq!(data.len(), 16385);
            assert_eq!((data[0], data[16383], data[16384]), (7, 7, 8));
        }
        _ => panic!("no piece"),
    }

    let reply = peer.try_round(None, None).unwrap();
    assert!(matches!(
        reply.actions[..],
        [PeerAction::Send(Message::Request { piece_idx: 0, block_offset: 0, block_length: 3 })]
    ));
    let actions = peer.finish();
    assert!(matches!(
        actions[..],
        [
            PeerAction::Status(PeerStatus::Disconnected),
            PeerAction::Send(Message::Cancel { piece_idx: 0, block_offset: 3, block_length: 0 })
        ]
    ));
}

#[test]
fn peer_is_ready_only_when_nothing_is_queued() {
    let mut peer = new_peer(3);
    peer.receive(Message::Bitfield { bitfield: Bitfield::from_pieces(vec![true; 3]) });
    peer.try_round(Some(PeerCommand::SendInterested), None).unwrap();
    peer.handle_engine_cmd(PeerCommand::RequestPiece { pieces: vec![(0, 1), (1, 1), (2, 1)] });
    let reply = peer.receive(Message::Unchoke);
    assert_eq!(reply.actions.len(), 0);
    peer.try_round(None, None).unwrap();
    for piece_idx in [0u32, 1, 2] {
        let reply = peer.receive(Message::Piece { piece_idx, block_offset: 0, block_data: vec![1] });
        assert!(matches!(reply.actions[..], [PeerAction::PieceData(idx, _)] if idx == piece_idx as usize));
        let reply = peer.try_round(None, None).unwrap();
        if piece_idx == 2 {
            assert!(matches!(reply.actions[..], [PeerAction::Status(PeerStatus::Ready)]));
        } else {
            assert!(matches!(reply.actions[..], [PeerAction::Send(Message::Request { .. })]));
        }
    }
}

#[test]
fn peer_is_dropped_for_what_it_should_not_send() {
    let mut peer = new_peer(1);
    assert!(!keeps(&peer.handle_peer_msg(Message::Have { piece: 0 })));
    let unasked = Message::Piece { piece_idx: 0, block_offset: 0, block_data: vec![1] };
    assert!(!keeps(&peer.handle_peer_msg(unasked)));
    peer.handle_engine_cmd(PeerCommand::RequestPiece { pieces: vec![(1, 4)] });
    let wrong = Message::Piece { piece_idx: 0, block_offset: 0, block_data: vec![1] };
    assert!(!keeps(&peer.handle_peer_msg(wrong)));
    let outside = Message::Piece { piece_idx: 1, block_offset: 3, block_data: vec![1, 2] };
    assert!(!peer.can_handle(&outside));
    for _ in 0..4 {
        assert!(keeps(&peer.handle_peer_msg(Message::Unknown(44))));
    }
    assert!(!keeps(&peer.handle_peer_msg(Message::Unknown(44))));
    assert!(!peer.try_round(Some(PeerCommand::Disconnect), None).unwrap().keep);
}

#[test]
fn peer_marks_pieces_and_interest() {
    let mut peer = new_peer(2);
    peer.handle_peer_msg(Message::Bitfield { bitfield: Bitfield::from_pieces(vec![false, false]) });
    let reply = peer.handle_peer_msg(Message::Have { piece: 1 });
    assert!(matches!(&reply.actions[..], [PeerAction::Pieces(pieces)] if pieces == &vec![false, true]));
    let reply = peer.handle_peer_msg(Message::Interested);
    assert!(matches!(reply.actions[..], [PeerAction::Send(Message::Unchoke)]));
    assert_eq!(peer.handle_peer_msg(Message::Interested).actions.len(), 0);
    assert_eq!(peer.handle_peer_msg(Message::NotInterested).actions.len(), 0);
    let reply = peer.handle_peer_msg(Message::Choke);
    assert!(matches!(reply.actions[..], [PeerAction::Status(PeerStatus::Busy)]));
    let reply = peer.handle_engine_cmd(PeerCommand::SendNotInterested);
    assert!(matches!(reply.actions[..], [PeerAction::Send(Message::NotInterested)]));
    assert_eq!(peer.handle_peer_msg(Message::KeepAlive).actions.len(), 0);
}

#[test]
fn peer_is_served_blocks() {
    let mut peer = new_peer(1);
    // A peer that is choked is not served.
    let reply = peer.receive(Message::Request { piece_idx: 2, block_offset: 1, block_length: 2 });
    assert!(keeps(&reply) && reply.actions.is_empty());
    assert!(!peer.can_send_peer_request());
    let reply = peer.receive(Message::Interested);
    assert!(matches!(reply.actions[..], [PeerAction::Send(Message::Unchoke)]));
    let reply = peer.receive(Message::Request { piece_idx: 2, block_offset: 1, block_length: 2 });
    assert!(matches!(reply.actions[..], [PeerAction::Status(PeerStatus::RequestedPiece(2))]));
    let reply = peer
        .try_round(Some(PeerCommand::SendPiece { piece: 2, data: vec![1, 2, 3, 4] }), None)
        .unwrap();
    assert!(matches!(reply.actions[0], PeerAction::Status(PeerStatus::Busy)));
    match &reply.actions[1] {
        PeerAction::Send(Message::Piece { piece_idx: 2, block_offset: 1, block_data }) => {
            assert_eq!(block_data, &vec![2, 3]);
        }
        _ => panic!("no block"),
    }
    // The block goes out once.
    let reply = peer.try_round(None, None).unwrap();
    assert!(reply.keep && reply.actions.is_empty());
    // The same piece is kept for the next block, another one is not.
    peer.receive(Message::Request { piece_idx: 2, block_offset: 3, block_length: 1 });
    assert!(peer.can_send_peer_request());
    assert_eq!(peer.send_peer_request().actions.len(), 1);
    peer.receive(Message::Request { piece_idx: 2, block_offset: 3, block_length: 2 });
    assert!(!peer.can_send_peer_request());
    assert!(peer.try_round(None, None).is_none());
    peer.receive(Message::Request { piece_idx: 7, block_offset: 0, block_length: 1 });
    assert!(!peer.try_round(None, None).unwrap().keep);
}

#[test]
fn pieces_are_laid_out_over_files() {
    let pieces = try_calculate_pieces_info(&vec![6, 4], 3, 4).unwrap();
    let starts: Vec<(usize, usize, usize)> =
        pieces.iter().map(|piece| (piece.idx(), piece.start_file, piece.start_position)).collect();
    assert_eq!(starts, vec![(0, 0, 0), (1, 0, 4), (2, 1, 2)]);
    assert!(pieces.iter().all(|piece| piece.length() == 4 && !piece.completed));
    assert!(try_calculate_pieces_info(&vec![], 0, 4).is_none());
    assert!(try_calculate_pieces_info(&vec![4], 2, 4).is_none());
    assert_eq!(try_calculate_pieces_info(&vec![4], 0, 4).unwrap().len(), 0);
    assert_eq!(extension(3, 10), Some(9));
    assert_eq!(extension(10, 10), None);
}

#[test]
fn transfer_reads_and_writes_the_same_places() {
    let transfer = Transfer::create(three_pieces());
    assert_eq!(transfer.piece_count(), 3);
    assert_eq!(transfer.read_piece(0), vec![Span { file: 0, position: 0, length: 4 }]);
    let split = vec![Span { file: 0, position: 4, length: 2 }, Span { file: 1, position: 0, length: 2 }];
    assert_eq!(transfer.read_piece(1), split);
    assert_eq!(transfer.read_piece(2), vec![Span { file: 1, position: 2, length: 2 }]);
    assert_eq!(transfer.try_write_piece(1, 4), Some(split));
    assert_eq!(transfer.try_write_piece(0, 4), Some(transfer.read_piece(0)));
    assert_eq!(transfer.try_write_piece(2, 2), Some(transfer.read_piece(2)));
    assert_eq!(transfer.try_write_piece(2, 3), None);
    assert_eq!(join_parts(vec![1], Some(vec![2])), vec![1, 2]);
    assert_eq!(join_parts(vec![1], None), vec![1]);
    assert_eq!(transfer.info_hash(), *transfer.torrent_data().info().info_hash());
}

#[test]
fn transfer_checks_pieces() {
    let mut transfer = Transfer::create(three_pieces());
    transfer.check_torrent();
    assert_eq!(transfer.check_piece(0, b"aaaa"), Some(true));
    assert_eq!(transfer.check_piece(1, b"xxxx"), Some(false));
    assert_eq!(transfer.check_piece(2, b"bb"), Some(true));
    assert_eq!(transfer.pieces_status(), vec![true, false, true]);
    assert!(!transfer.is_complete());
    let progress = transfer.get_progress();
    assert_eq!((progress.left, progress.total, progress.uploaded, progress.downloaded), (4, 10, 0, 0));
    assert_eq!(transfer.pieces()[2].length(), 2);
    match transfer.add_complete_piece(1, b"aabb") {
        Some(Added::Complete(spans)) => assert_eq!(spans.len(), 2),
        _ => panic!("not complete"),
    }
    assert!(transfer.is_complete());
    assert_eq!(transfer.get_progress().left, 0);
    assert!(matches!(transfer.add_complete_piece(1, b"other"), Some(Added::Invalid)));
    assert!(transfer.add_complete_piece(1, b"aabb").is_none());
    assert!(transfer.check_piece(0, b"aaaa").is_none());
}

#[test]
fn transfer_refuses_files_that_are_too_small() {
    assert!(Transfer::try_create(torrent(&[("a", 4)], 4, &[[0; 20], [0; 20]], &[])).is_none());
    assert!(Transfer::try_create(torrent(&[], 4, &[], &[])).is_none());
    assert!(Transfer::try_create(torrent(&[("a", 4)], 4, &[[0; 20]], &[])).is_some());
}

#[test]
fn trackers_are_in_order_and_once() {
    let transfer = Transfer::create(torrent(&[("a", 4)], 4, &[[0; 20]], &["http://c", "", "http://b", "http://a", "http://b"]));
    assert_eq!(transfer.get_trackers(), vec!["http://a", "http://b", "http://c"]);
}

#[test]
fn pieces_go_to_peers_that_have_them() {
    let mut transfer = Transfer::create(three_pieces());
    let available = vec![false, true, true];
    assert_eq!(transfer.find_piece_for_peer(&available), Some(1));
    transfer.get_piece_for_peer(&available).unwrap().set_assigned(v4(1));
    assert_eq!(transfer.pieces()[1].assigned_to, Some(v4(1)));
    assert_eq!(transfer.find_piece_for_peer(&available), Some(2));
    transfer.assign_piece(2, v4(2));
    assert!(transfer.get_piece_for_peer(&available).is_none());
    assert!(transfer.get_piece_for_peer(&vec![]).is_none());
    transfer.unassign_piece(1);
    assert_eq!(transfer.find_piece_for_peer(&available), Some(1));
    assert!(transfer.can_search(&vec![true]));
    assert!(!transfer.can_search(&vec![false]));
}

#[test]
fn engine_gives_takes_and_purges() {
    let mut engine = Engine::init(Transfer::create(three_pieces()));
    assert_eq!(engine.add_peers(&vec![v4(1), v4(2)]), vec![v4(1), v4(2)]);
    assert_eq!(engine.add_peers(&vec![v4(2), v4(3)]), vec![v4(3)]);
    assert_eq!(engine.peer_count(), 3);
    assert_eq!(engine.peer(2).address(), v4(3));
    assert_eq!(engine.peer(2).status(), PeerStatus::Busy);
    assert!(matches!(engine.try_serve_peer(0), Some(PeerTask::Rest)));

    engine.update_peer(0, StatusNews::Changed(PeerStatus::ConnectionEstablished), Some(vec![true, true, true]));
    assert!(matches!(engine.try_serve_peer(0), Some(PeerTask::Command(PeerCommand::SendInterested))));
    engine.update_peer(0, StatusNews::Changed(PeerStatus::Ready), None);
    match engine.try_serve_peer(0) {
        Some(PeerTask::Command(PeerCommand::RequestPiece { pieces })) => {
            assert_eq!(pieces, vec![(0, 4), (1, 4), (2, 4)]);
        }
        _ => panic!("no pieces"),
    }
    assert!(engine.peer(0).has_piece_assigned(1));

    engine.update_peer(1, StatusNews::Changed(PeerStatus::Ready), Some(vec![true, true, true]));
    assert!(matches!(engine.try_serve_peer(1), Some(PeerTask::Rest)));
    assert!(matches!(engine.try_take_piece(1, b"nope"), Some(PieceOutcome::Invalid)));
    assert!(!engine.peer(0).has_piece_assigned(1));
    match engine.try_serve_peer(1) {
        Some(PeerTask::Command(PeerCommand::RequestPiece { pieces })) => assert_eq!(pieces, vec![(1, 4)]),
        _ => panic!("no piece"),
    }
    match engine.try_take_piece(0, b"aaaa") {
        Some(PieceOutcome::Complete(spans, progress)) => {
            assert_eq!(spans, vec![Span { file: 0, position: 0, length: 4 }]);
            assert_eq!(progress.left, 6);
        }
        _ => panic!("not complete"),
    }
    assert!(engine.try_take_piece(9, b"").is_none());

    // Piece 2 is freed when its peer leaves.
    engine.update_peer(0, StatusNews::Gone, None);
    engine.purge_peers_list(&vec![false, false, true]);
    assert_eq!(engine.peer_count(), 1);
    assert_eq!(engine.peer(0).address(), v4(2));
    assert!(engine.transfer().pieces()[2].assigned_to.is_none());
    assert_eq!(engine.transfer().pieces()[1].assigned_to, Some(v4(2)));

    assert!(!engine.newly_complete());
    assert!(matches!(engine.try_take_piece(1, b"aabb"), Some(PieceOutcome::Complete(_, _))));
    assert!(matches!(engine.try_take_piece(2, b"bb"), Some(PieceOutcome::Complete(_, _))));
    assert!(engine.newly_complete());
    assert!(!engine.newly_complete());
}

#[test]
fn engine_reads_pieces_for_peers() {
    let mut engine = Engine::init(Transfer::create(three_pieces()));
    engine.add_peers(&vec![v4(1)]);
    engine.update_peer(0, StatusNews::Changed(PeerStatus::RequestedPiece(2)), None);
    match engine.try_serve_peer(0) {
        Some(PeerTask::SendPiece(2, spans)) => {
            assert_eq!(spans, vec![Span { file: 1, position: 2, length: 2 }]);
        }
        _ => panic!("nothing to read"),
    }
    engine.update_peer(0, StatusNews::Changed(PeerStatus::RequestedPiece(3)), None);
    assert!(engine.try_serve_peer(0).is_none());
    engine.update_peer(0, StatusNews::Changed(PeerStatus::Ready), Some(vec![false]));
    assert!(engine.try_serve_peer(0).is_none());
    // Piece 0 was given before piece 1 was looked for, and is free again.
    engine.update_peer(0, StatusNews::Unchanged, Some(vec![true]));
    assert!(engine.try_serve_peer(0).is_none());
    assert!(engine.transfer().pieces().iter().all(|piece| piece.assigned_to.is_none()));
    engine.update_peer(0, StatusNews::Unchanged, Some(vec![]));
    assert!(matches!(engine.try_serve_peer(0), Some(PeerTask::Rest)));
    engine.command_failed(0);
    assert_eq!(engine.peer(0).status(), PeerStatus::Disconnected);
}

#[test]
fn engine_gives_five_pieces_at_most() {
    let hashes = [[0; 20]; 7];
    let mut engine = Engine::init(Transfer::create(torrent(&[("a", 7)], 1, &hashes, &[])));
    engine.add_peers(&vec![v4(1)]);
    engine.update_peer(0, StatusNews::Changed(PeerStatus::Ready), Some(vec![true; 8]));
    match engine.try_serve_peer(0) {
        Some(PeerTask::Command(PeerCommand::RequestPiece { pieces })) => {
            assert_eq!(pieces.iter().map(|piece| piece.0).collect::<Vec<usize>>(), vec![0, 1, 2, 3, 4]);
        }
        _ => panic!("no pieces"),
    }
}

#[test]
fn all_peers_are_told_to_disconnect() {
    let mut engine = Engine::init(Transfer::create(three_pieces()));
    assert!(engine.stop().is_empty());
    engine.add_peers(&vec![v4(1), v4(2)]);
    assert!(matches!(
        engine.stop()[..],
        [(first, PeerCommand::Disconnect), (second, PeerCommand::Disconnect)] if first == v4(1) && second == v4(2)
    ));
}

#[test]
fn commands_need_room() {
    assert!(TcpPeer::can_follow(&PeerCommand::RequestPiece { pieces: vec![(0, 16)] }));
    assert!(!TcpPeer::can_follow(&PeerCommand::RequestPiece { pieces: vec![(0, 16), (1, u64::MAX)] }));
    assert!(TcpPeer::can_follow(&PeerCommand::Disconnect));
    let mut peer = new_peer(1);
    assert!(peer.try_round(Some(PeerCommand::RequestPiece { pieces: vec![(1, u64::MAX)] }), None).is_none());
}

#[test]
fn rounds_end_in_turns() {
    let mut peer = new_peer(2);
    // The answer to the bitfield is waited for.
    peer.establish_connection();
    let reply = peer.try_round(None, None).unwrap();
    assert_eq!(reply.turn(true), Turn::Listen);
    assert_eq!(reply.turn(false), Turn::Drop);
    peer.receive(Message::Bitfield { bitfield: Bitfield::from_pieces(vec![true, true]) });
    assert_eq!(peer.try_round(None, None).unwrap().turn(true), Turn::Sleep);
    // An interested client waits to be unchoked.
    assert_eq!(peer.try_round(Some(PeerCommand::SendInterested), None).unwrap().turn(true), Turn::Listen);
    let reply = peer.receive(Message::Unchoke);
    assert!(reply.keeps(true) && !reply.keeps(false));
    // Blocks are asked for in one round, and listened for in the next.
    let pieces = vec![(0, 4)];
    let reply = peer.try_round(Some(PeerCommand::RequestPiece { pieces }), None).unwrap();
    assert!(matches!(reply.actions[..], [_, PeerAction::Send(Message::Request { .. })]));
    assert_eq!(reply.turn(true), Turn::Sleep);
    assert_eq!(peer.try_round(None, None).unwrap().turn(true), Turn::Listen);
    assert_eq!(peer.try_round(Some(PeerCommand::Disconnect), None).unwrap().turn(true), Turn::Drop);
}

#[test]
fn data_is_split_over_stretches() {
    let transfer = Transfer::create(three_pieces());
    let spans = transfer.try_write_piece(1, 4).unwrap();
    assert_eq!(try_split(&spans, b"abcd"), Some(vec![b"ab".to_vec(), b"cd".to_vec()]));
    assert_eq!(try_split(&spans, b"abc"), None);
    assert_eq!(try_split(&spans, b"abcde"), None);
    assert_eq!(try_split(&vec![], b""), Some(vec![]));
}
