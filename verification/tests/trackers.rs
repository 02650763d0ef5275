use rusty_torrents::address::{sorted_unique, PeerAddress};
use rusty_torrents::client::tracker::{
    asks_again, create_trackers, is_countable, next_event, starts_with_udp, TcpTracker, TrackerEvent, TrackerKind as ClientKind,
};
use rusty_torrents::engine::tracker::{
    read_peers_v4, read_peers_v6, received_peers, Tracker, TrackerKind, TrackersHandler,
};
use rusty_torrents::engine::transfer::TransferProgress;

const SECOND: u128 = 1_000_000_000;

fn progress(left: u64) -> TransferProgress {
    TransferProgress { left, total: 10, uploaded: 1, downloaded: 23 }
}

fn hash() -> [u8; 20] {
    let mut hash = [b'a'; 20];
    hash[0] = 0xff;
    hash[1] = b'-';
    hash[2] = b' ';
    hash[3] = 0;
    hash
}

fn v4(a: u8, b: u8, c: u8, d: u8, port: u16) -> PeerAddress {
    PeerAddress::V4 { ip: u32::from_be_bytes([a, b, c, d]), port }
}

#[test]
fn tracker_urls() {
    let id = String::from("00000000000000000000");
    let tracker = Tracker::new(String::from("http://t/announce"), id.clone());
    assert_eq!(tracker.kind(), TrackerKind::Tcp);
    assert_eq!(
        tracker.query_url(&hash(), &progress(5)),
        "http://t/announce?info_hash=%FF-%20%00aaaaaaaaaaaaaaaa&peer_id=00000000000000000000&port=6881\
         &uploaded=1&downloaded=23&left=5&compact=1&numwant=100&event=started"
    );
    assert_eq!(tracker.event(&progress(0)), "completed");
    let udp = Tracker::new(String::from("udp://host:99/announce"), id.clone());
    assert_eq!(udp.kind(), TrackerKind::Udp);
    assert!(udp.query_url(&hash(), &progress(5)).starts_with("host:99?info_hash="));
    let bare = Tracker::new(String::from("udp://host"), id.clone());
    assert!(bare.query_url(&hash(), &progress(5)).starts_with("host?info_hash="));
    assert!(Tracker::try_new(String::from("udp:/host"), id).is_none());
}

#[test]
fn handler_asks_when_it_is_time() {
    let urls = vec![String::from("http://a"), String::from("http://b")];
    let mut handler = TrackersHandler::try_init(hash(), progress(3), &urls).unwrap();
    assert_eq!(handler.len(), 2);
    assert!(handler.interval_known(0));
    assert!(handler.announce(0, 0).unwrap().ends_with("event=started"));

    let body = b"d8:intervali1800e5:peers6:\x01\x02\x03\x04\x1a\xe16:peers618:\x00\x00\x00\x00\x00\x00\x00\x00\x00\x00\x00\x00\x00\x00\x00\x01\x00\x50e".to_vec();
    let peers = handler.try_answer(0, &body, 7 * SECOND).unwrap();
    assert_eq!(peers, vec![v4(1, 2, 3, 4, 6881), PeerAddress::V6 { ip: 1, port: 80 }]);
    assert!(handler.interval_known(0));
    assert!(handler.announce(0, 126 * SECOND).is_none());
    assert!(handler.announce(0, 127 * SECOND).unwrap().ends_with("&event="));
    assert!(handler.announce(1, 0).unwrap().starts_with("http://b?"));

    handler.set_progress(progress(0));
    assert!(handler.announce(0, 127 * SECOND).unwrap().ends_with("left=0&compact=1&numwant=100&event=completed"));
    handler.try_answer(0, &b"d8:intervali5ee".to_vec(), 127 * SECOND).unwrap();
    assert!(handler.announce(0, 131 * SECOND).is_none());
    assert!(handler.announce(0, 132 * SECOND).unwrap().ends_with("&event="));

    handler.try_answer(1, &b"d1:ai1ee".to_vec(), 0).unwrap();
    assert!(!handler.interval_known(1));
    assert!(TrackersHandler::try_init(hash(), progress(3), &vec![String::from("udp:x")]).is_none());
}

#[test]
fn handler_refuses_broken_answers() {
    let mut handler = TrackersHandler::try_init(hash(), progress(3), &vec![String::from("http://a")]).unwrap();
    assert!(handler.try_answer(0, &b"<html>".to_vec(), 0).is_none());
    assert!(handler.try_answer(0, &b"".to_vec(), 0).is_none());
    assert!(handler.try_answer(0, &b"d5:peers5:abcdee".to_vec(), 0).is_none());
    assert!(handler.try_answer(0, &b"d6:peers66:abcdefe".to_vec(), 0).is_none());
    assert!(handler.announce(0, 0).unwrap().ends_with("event=started"));
}

#[test]
fn peers_are_in_order_and_once() {
    let tcp = vec![PeerAddress::V6 { ip: 0, port: 1 }, v4(2, 0, 0, 0, 1), v4(1, 0, 0, 0, 2)];
    let udp = vec![v4(1, 0, 0, 0, 2), v4(1, 0, 0, 0, 1)];
    let expected = vec![
        v4(1, 0, 0, 0, 1),
        v4(1, 0, 0, 0, 2),
        v4(2, 0, 0, 0, 1),
        PeerAddress::V6 { ip: 0, port: 1 },
    ];
    assert_eq!(received_peers(Some(tcp), Some(udp)), expected);
    assert_eq!(received_peers(None, None), Vec::new());
    assert_eq!(sorted_unique(&expected), expected);
    assert!(!v4(1, 0, 0, 0, 1).is_less(v4(1, 0, 0, 0, 1)));
}

#[test]
fn addresses_are_whole() {
    assert_eq!(read_peers_v4(vec![127, 0, 0, 1, 0, 80]), Some(vec![v4(127, 0, 0, 1, 80)]));
    assert_eq!(read_peers_v4(vec![127, 0, 0, 1, 0]), None);
    assert_eq!(read_peers_v4(vec![]), Some(vec![]));
    assert_eq!(read_peers_v6(vec![0; 36]).unwrap().len(), 2);
    assert_eq!(read_peers_v6(vec![0; 17]), None);
}

#[test]
fn client_trackers_leave_out_udp() {
    let urls = vec![String::from("udp://a"), String::from("http://b"), String::from("udphttp://c")];
    let trackers = create_trackers(&urls, 0);
    assert_eq!(trackers.len(), 2);
    match &trackers[0] {
        ClientKind::Tcp(tracker) => {
            assert!(!tracker.is_announced());
            assert_eq!(tracker.get_peers().len(), 0);
            let url = tracker.send_message(next_event(false), &hash(), 10, 4, 3, 0).unwrap();
            assert_eq!(
                url,
                "http://b?info_hash=%FF-%20%00aaaaaaaaaaaaaaaa&peer_id=rrrrrrrrrrrrrrrrrrrr&port=6881\
                 &uploaded=0&downloaded=10&left=30&compact=1&event=started"
            );
        }
        _ => panic!("not reached by TCP"),
    }
    assert!(starts_with_udp("udp:"));
    assert!(!starts_with_udp("udp"));
}

#[test]
fn client_tracker_takes_answers() {
    let mut tracker = TcpTracker::new(String::from("me"), String::from("http://t"), 5 * SECOND);
    assert!(!tracker.try_answer(&b"nonsense".to_vec()));
    assert!(!tracker.try_answer(&b"d5:peers4:abcde".to_vec()));
    assert!(!tracker.is_announced());
    assert!(tracker.try_answer(&b"d8:intervali30e5:peers6:\x0a\x00\x00\x01\x00\x07e".to_vec()));
    assert!(tracker.is_announced());
    assert_eq!(tracker.get_peers(), &vec![v4(10, 0, 0, 1, 7)]);
    let periodic = next_event(true);
    assert_eq!(periodic, TrackerEvent::PeriodicRequest);
    assert!(tracker.send_message(periodic, &hash(), 1, 1, 0, 34 * SECOND).unwrap().ends_with("left=0&compact=1"));
    assert!(tracker.send_message(periodic, &hash(), 1, 1, 0, 35 * SECOND).is_none());
    assert!(tracker.send_message(TrackerEvent::Stopped, &hash(), 1, 1, 0, 35 * SECOND).unwrap().ends_with("&event=stopped"));
    assert!(tracker.send_message(TrackerEvent::Completed, &hash(), 1, 1, 0, 35 * SECOND).unwrap().ends_with("&event=completed"));
    assert!(is_countable(3, 4));
    assert!(!is_countable(usize::MAX, 2));
}

#[test]
fn trackers_are_asked_three_times_at_most() {
    assert!(asks_again(0, false) && asks_again(2, false));
    assert!(!asks_again(3, false));
    assert!(!asks_again(1, true));
}
