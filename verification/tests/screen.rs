use rusty_torrents::engine::transfer::TransferProgress;
use rusty_torrents::ui::{
    bytes_rate, file_cells, file_row, peer_row, per_second, piece_row, poll_timeout, rate, summary_row, tick_due, App,
    Key, Outcome, PeerRow, PieceRow, RowCounts, UiEvent,
};

fn app() -> App {
    let progress = TransferProgress { left: 3, total: 10, uploaded: 0, downloaded: 0 };
    App::try_new(&vec![4, 4, 2], progress).unwrap()
}

fn counts() -> RowCounts {
    RowCounts { files: 2, peers: 0, pieces: 5 }
}

#[test]
fn tabs_go_round() {
    let mut app = app();
    assert_eq!(app.handle_event(UiEvent::Released(Key::Left), counts()), Outcome::Draw);
    assert_eq!(app.selected_tab, 2);
    app.handle_event(UiEvent::Released(Key::Right), counts());
    assert_eq!(app.selected_tab, 0);
    app.handle_event(UiEvent::Released(Key::Right), counts());
    assert_eq!(app.selected_tab, 1);
    assert_eq!(app.handle_event(UiEvent::Pressed, counts()), Outcome::Skip);
    assert_eq!(app.handle_event(UiEvent::Released(Key::Other), counts()), Outcome::Idle);
    assert_eq!(app.handle_event(UiEvent::Other, counts()), Outcome::Idle);
    assert_eq!(app.handle_event(UiEvent::Released(Key::Quit), counts()), Outcome::Quit);
}

#[test]
fn marks_go_round() {
    let mut app = app();
    app.handle_event(UiEvent::ScrollUp, counts());
    assert_eq!(app.files_selected, Some(2));
    app.handle_event(UiEvent::ScrollDown, counts());
    assert_eq!(app.files_selected, Some(0));
    app.handle_event(UiEvent::Released(Key::Down), counts());
    assert_eq!(app.files_selected, Some(1));
    app.handle_event(UiEvent::Released(Key::Up), counts());
    assert_eq!(app.files_selected, Some(0));
    app.selected_tab = 1;
    app.scroll_list(counts(), false);
    assert_eq!(app.peers_selected, Some(0));
    app.selected_tab = 2;
    app.scroll_list(counts(), false);
    assert_eq!((app.files_selected, app.peers_selected, app.pieces_selected), (Some(0), Some(0), Some(1)));
}

#[test]
fn app_adds_up() {
    assert_eq!(app().transfer_size, 10);
    assert_eq!(app().downloaded(), Some(7));
    let progress = TransferProgress { left: 11, total: 10, uploaded: 0, downloaded: 0 };
    assert_eq!(App::try_new(&vec![10], progress).unwrap().downloaded(), None);
    assert!(App::try_new(&vec![usize::MAX, 1], progress).is_none());
    assert_eq!(poll_timeout(50_000_000), 150_000_000);
    assert_eq!(poll_timeout(300_000_000), 0);
    assert!(tick_due(200_000_000) && !tick_due(199_999_999));
    assert_eq!((rate(100, 0), rate(100, 3)), (0, 33));
}

#[test]
fn sizes_have_units() {
    assert_eq!(file_row("f", 999)[1], "999 B");
    assert_eq!(file_row("f", 0)[1], "0 B");
    assert_eq!(file_row("f", 1000)[1], "1.0 KB");
    assert_eq!(file_row("f", 1500)[1], "1.5 KB");
    assert_eq!(file_row("f", 1_040_000)[1], "1040.0 KB");
    assert_eq!(file_row("f", 1_060_000)[1], "1.1 MB");
    assert_eq!(file_row("f", u64::MAX)[1], "18.4 EB");
    assert_eq!(bytes_rate(301_000), "301.0 KB/s");
    assert_eq!(file_row("f", 2_037_372_928), vec!["f", "2.0 GB"]);
    assert_eq!(bytes_rate(12), "12 B/s");
    assert_eq!(per_second(String::from("x")), "x/s");
    assert_eq!(file_cells("a", String::from("b")), vec!["a", "b"]);
}

#[test]
fn rows_have_their_cells() {
    let piece = PieceRow { length: 4, downloaded: 3, requested: true, finished: false };
    assert_eq!(piece_row(12, piece), vec!["12", "4 B", "3 B", "Yes", "No"]);
    let peer = PeerRow {
        address: String::from("1.2.3.4:5"),
        status: String::from("Active"),
        downloaded: 50,
        uploaded: 6,
        elapsed_secs: 5,
        last_sent: Some(String::from("Have")),
        last_received: None,
    };
    assert_eq!(peer_row(peer), vec!["1.2.3.4:5", "Active", "50 B", "6 B", "10 B/s", "Have", "-"]);
    assert_eq!(summary_row("n", 900, 100, 40, 4, 2), vec!["n", "900 B", "100 B", "10 B/s", "2"]);
}
