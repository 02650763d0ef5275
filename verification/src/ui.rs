//! What the terminal shows of a torrent, and what keys and the mouse do.
use vstd::arithmetic::power::pow;
use vstd::prelude::*;
use vstd::string::*;

use crate::engine::transfer::TransferProgress;
use crate::text::{concat, decimal, decimal_string, texts};

verus! {

/// The number of tabs: files, peers and pieces.
pub const TAB_COUNT: usize = 3;

/// How long the screen may stay as it is, in nanoseconds.
pub const TICK_NANOS: u128 = 200_000_000;

/// A key.
#[derive(Clone, Copy, Debug, PartialEq, Eq, Structural)]
pub enum Key {
    Up,
    Down,
    Left,
    Right,
    Quit,
    Other,
}

/// Something that the user does.
#[derive(Clone, Copy, Debug, PartialEq, Eq, Structural)]
pub enum UiEvent {
    /// A key was let go.
    Released(Key),
    /// A key was pressed or held.
    Pressed,
    ScrollUp,
    ScrollDown,
    Other,
}

/// What follows from an event.
#[derive(Clone, Copy, Debug, PartialEq, Eq, Structural)]
pub enum Outcome {
    /// Nothing.
    Idle,
    /// The screen is to be drawn.
    Draw,
    /// The next event is awaited at once.
    Skip,
    /// The program ends.
    Quit,
}

/// The number of rows in each tab.
#[derive(Clone, Copy, Debug, PartialEq, Eq, Structural)]
pub struct RowCounts {
    pub files: usize,
    pub peers: usize,
    pub pieces: usize,
}

/// What is shown: the tab, and the row that is marked in each of the tabs.
#[derive(Clone, Copy, Debug)]
pub struct App {
    pub selected_tab: usize,
    pub files_selected: Option<usize>,
    pub peers_selected: Option<usize>,
    pub pieces_selected: Option<usize>,
    pub transfer_size: usize,
    pub transfer_progress: TransferProgress,
}

/// The sum of numbers.
pub open spec fn sum(numbers: Seq<usize>) -> int
    decreases numbers.len(),
{
    if numbers.len() == 0 {
        0
    } else {
        sum(numbers.drop_last()) + numbers.last()
    }
}

/// The row that is marked after the mark moved by one: from the first one up to
/// the end, and from the end down to the first one.
pub open spec fn scrolled(selected: Option<usize>, max: usize, up: bool) -> usize {
    let at = match selected {
        Some(at) => at,
        None => 0,
    };
    if up {
        if at == 0 {
            max
        } else {
            (at - 1) as usize
        }
    } else if at >= max {
        0
    } else {
        (at + 1) as usize
    }
}

/// What is shown after the mark moved by one in the tab that is shown.
pub open spec fn list_scrolled(app: App, counts: RowCounts, up: bool) -> App {
    if app.selected_tab == 0 {
        App { files_selected: Some(scrolled(app.files_selected, counts.files, up)), ..app }
    } else if app.selected_tab == 1 {
        App { peers_selected: Some(scrolled(app.peers_selected, counts.peers, up)), ..app }
    } else {
        App { pieces_selected: Some(scrolled(app.pieces_selected, counts.pieces, up)), ..app }
    }
}

/// The tab to the left, the last one from the first.
pub open spec fn left_of(tab: usize) -> usize {
    if tab == 0 {
        (TAB_COUNT - 1) as usize
    } else {
        (tab - 1) as usize
    }
}

/// The tab to the right, the first one from the last.
pub open spec fn right_of(tab: usize) -> usize {
    if tab == TAB_COUNT - 1 {
        0
    } else {
        (tab + 1) as usize
    }
}

/// What is shown after an event, and what follows from it.
pub open spec fn on_event(app: App, event: UiEvent, counts: RowCounts) -> (App, Outcome) {
    match event {
        UiEvent::Released(Key::Up) => (list_scrolled(app, counts, true), Outcome::Draw),
        UiEvent::Released(Key::Down) => (list_scrolled(app, counts, false), Outcome::Draw),
        UiEvent::Released(Key::Left) => (
            App { selected_tab: left_of(app.selected_tab), ..app },
            Outcome::Draw,
        ),
        UiEvent::Released(Key::Right) => (
            App { selected_tab: right_of(app.selected_tab), ..app },
            Outcome::Draw,
        ),
        UiEvent::Released(Key::Quit) => (app, Outcome::Quit),
        UiEvent::Released(Key::Other) => (app, Outcome::Idle),
        UiEvent::Pressed => (app, Outcome::Skip),
        UiEvent::ScrollUp => (list_scrolled(app, counts, true), Outcome::Draw),
        UiEvent::ScrollDown => (list_scrolled(app, counts, false), Outcome::Draw),
        UiEvent::Other => (app, Outcome::Idle),
    }
}

impl App {
    /// One of the tabs is shown.
    pub open spec fn wf(self) -> bool {
        self.selected_tab < TAB_COUNT
    }

    /// The first tab, with no row marked; nothing where the lengths of the pieces
    /// cannot be added up.
    pub fn try_new(piece_lengths: &Vec<usize>, transfer_progress: TransferProgress) -> (app: Option<
        App,
    >)
        ensures
            match app {
                Some(a) => a.wf() && a == (App {
                    selected_tab: 0,
                    files_selected: None,
                    peers_selected: None,
                    pieces_selected: None,
                    transfer_size: a.transfer_size,
                    transfer_progress,
                }) && a.transfer_size == sum(piece_lengths@),
                None => sum(piece_lengths@) > usize::MAX,
            },
    {
        let mut transfer_size: usize = 0;
        let mut counted = true;
        let mut i: usize = 0;
        assert(piece_lengths@.take(0) =~= Seq::empty());
        while i < piece_lengths.len()
            invariant
                i <= piece_lengths@.len(),
                counted ==> transfer_size == sum(piece_lengths@.take(i as int)),
                !counted ==> sum(piece_lengths@.take(i as int)) > usize::MAX,
            decreases piece_lengths@.len() - i,
        {
            assert(piece_lengths@.take(i + 1).drop_last() =~= piece_lengths@.take(i as int));
            let length: usize = piece_lengths[i];
            if counted && length <= usize::MAX - transfer_size {
                transfer_size = transfer_size + length;
            } else {
                counted = false;
            }
            i = i + 1;
        }
        assert(piece_lengths@.take(i as int) =~= piece_lengths@);
        if !counted {
            return None;
        }
        Some(
            App {
                selected_tab: 0,
                files_selected: None,
                peers_selected: None,
                pieces_selected: None,
                transfer_size,
                transfer_progress,
            },
        )
    }

    /// Takes what the user does.
    pub fn handle_event(&mut self, event: UiEvent, counts: RowCounts) -> (outcome: Outcome)
        requires
            old(self).wf(),
        ensures
            on_event(*old(self), event, counts) == (*final(self), outcome),
            final(self).wf(),
    {
        match event {
            UiEvent::Released(key) => match key {
                Key::Up => {
                    self.scroll_list(counts, true);
                    Outcome::Draw
                },
                Key::Down => {
                    self.scroll_list(counts, false);
                    Outcome::Draw
                },
                Key::Left => {
                    if self.selected_tab == 0 {
                        self.selected_tab = TAB_COUNT - 1;
                    } else {
                        self.selected_tab = self.selected_tab - 1;
                    }
                    Outcome::Draw
                },
                Key::Right => {
                    if self.selected_tab == TAB_COUNT - 1 {
                        self.selected_tab = 0;
                    } else {
                        self.selected_tab = self.selected_tab + 1;
                    }
                    Outcome::Draw
                },
                Key::Quit => Outcome::Quit,
                Key::Other => Outcome::Idle,
            },
            UiEvent::Pressed => Outcome::Skip,
            UiEvent::ScrollUp => {
                self.scroll_list(counts, true);
                Outcome::Draw
            },
            UiEvent::ScrollDown => {
                self.scroll_list(counts, false);
                Outcome::Draw
            },
            UiEvent::Other => Outcome::Idle,
        }
    }

    /// Moves the mark by one in the tab that is shown.
    pub fn scroll_list(&mut self, counts: RowCounts, up: bool)
        ensures
            *final(self) == list_scrolled(*old(self), counts, up),
    {
        let (selected, max) = if self.selected_tab == 0 {
            (self.files_selected, counts.files)
        } else if self.selected_tab == 1 {
            (self.peers_selected, counts.peers)
        } else {
            (self.pieces_selected, counts.pieces)
        };
        let at: usize = match selected {
            Some(at) => at,
            None => 0,
        };
        let moved: usize = if up {
            if at == 0 {
                max
            } else {
                at - 1
            }
        } else if at >= max {
            0
        } else {
            at + 1
        };
        if self.selected_tab == 0 {
            self.files_selected = Some(moved);
        } else if self.selected_tab == 1 {
            self.peers_selected = Some(moved);
        } else {
            self.pieces_selected = Some(moved);
        }
    }

    /// The number of bytes that are there, or nothing where more is left than the
    /// torrent has.
    pub fn downloaded(&self) -> (bytes: Option<usize>)
        ensures
            bytes == (if self.transfer_progress.left as usize <= self.transfer_size {
                Some((self.transfer_size - self.transfer_progress.left as usize) as usize)
            } else {
                None
            }),
    {
        let left: usize = self.transfer_progress.left as usize;
        if left <= self.transfer_size {
            Some(self.transfer_size - left)
        } else {
            None
        }
    }
}

/// How long to wait for an event, when the screen was drawn so long ago.
pub fn poll_timeout(elapsed: u128) -> (nanos: u128)
    ensures
        nanos == (if elapsed <= TICK_NANOS {
            TICK_NANOS - elapsed
        } else {
            0
        }),
{
    if elapsed <= TICK_NANOS {
        TICK_NANOS - elapsed
    } else {
        0
    }
}

/// Whether the screen is to be drawn, when it was drawn so long ago.
pub fn tick_due(elapsed: u128) -> (due: bool)
    ensures
        due == (elapsed >= TICK_NANOS),
{
    elapsed >= TICK_NANOS
}

/// Bytes per second, none in the first second.
pub open spec fn rate_of(bytes: usize, secs: u64) -> usize {
    if secs > 0 {
        bytes / (secs as usize)
    } else {
        0
    }
}

/// Bytes per second, none in the first second.
pub fn rate(bytes: usize, secs: u64) -> (rate: usize)
    requires
        secs > 0 ==> secs as usize > 0,
    ensures
        rate == rate_of(bytes, secs),
{
    if secs > 0 {
        bytes / (secs as usize)
    } else {
        0
    }
}

/// The letter of a power of a thousand.
pub open spec fn unit_letter(power: nat) -> char {
    if power == 1 {
        'K'
    } else if power == 2 {
        'M'
    } else if power == 3 {
        'G'
    } else if power == 4 {
        'T'
    } else if power == 5 {
        'P'
    } else {
        'E'
    }
}

/// A number of tenths, in units of a power of a thousand.
pub open spec fn scaled_text(tenths: nat, power: nat) -> Seq<char> {
    decimal(tenths / 10) + "."@ + decimal(tenths % 10) + " "@ + seq![unit_letter(power), 'B']
}

/// The power of a thousand in which so many bytes are given: the largest one whose
/// like in powers of 1024 the bytes exceed, or the first. Within a millionth of a
/// power of 1024 it may be the one below or the one above.
pub open spec fn is_scale(bytes: u64, power: nat) -> bool {
    &&& 1 <= power <= 6
    &&& power > 1 ==> pow(1024, power) * 999_999 < bytes * 1_000_000
    &&& power < 6 ==> bytes * 1_000_000 < pow(1024, power + 1) * 1_000_001
}

/// The tenths are the bytes in units of a power of a thousand, rounded. What is
/// within a millionth of half a tenth may be rounded either way.
pub open spec fn is_rounded(bytes: u64, tenths: nat, power: nat) -> bool {
    let unit = pow(1000, power);
    let reach = unit + unit / 1_000_000;
    -reach <= 2 * (tenths * unit - 10 * bytes) <= reach
}

/// The text gives a number of bytes: below a thousand the number itself, and from
/// there on a number with one decimal place and a unit.
pub open spec fn is_size(bytes: u64, text: Seq<char>) -> bool {
    if bytes < 1000 {
        text == decimal(bytes as nat) + " B"@
    } else {
        exists|tenths: nat, power: nat|
            #![trigger scaled_text(tenths, power)]
            is_scale(bytes, power) && is_rounded(bytes, tenths, power) && text == scaled_text(
                tenths,
                power,
            )
    }
}

/// `ByteSize::b` and its text: below a thousand bytes the number and ` B`, from
/// there on the number in units of a power of a thousand, rounded to one decimal
/// place, and the unit. The unit is picked by a logarithm to the base 1024 in
/// floating point. Which unit comes within a millionth of a power of 1024, and
/// which way half a tenth is rounded, is left open.
#[verifier::external_body]
pub(crate) fn bytes_data(bytes: u64) -> (text: String)
    ensures
        is_size(bytes, text@),
{
    bytesize::ByteSize::b(bytes).to_string()
}

/// The text of a rate, out of the text of a number of bytes.
pub fn per_second(size: String) -> (text: String)
    ensures
        text@ == size@ + "/s"@,
{
    concat(size.as_str(), "/s")
}

/// The text of a number of bytes per second.
pub fn bytes_rate(bytes: u64) -> (text: String)
    ensures
        exists|size: Seq<char>| #[trigger] is_size(bytes, size) && text@ == size + "/s"@,
{
    per_second(bytes_data(bytes))
}

/// `Yes` or `No`.
pub open spec fn yes_no(flag: bool) -> Seq<char> {
    if flag {
        "Yes"@
    } else {
        "No"@
    }
}

/// `Yes` or `No`.
fn yes_no_text(flag: bool) -> (text: String)
    ensures
        text@ == yes_no(flag),
{
    if flag {
        "Yes".to_owned()
    } else {
        "No".to_owned()
    }
}

/// A message's name, or a dash.
pub open spec fn name_or_dash(name: Option<String>) -> Seq<char> {
    match name {
        Some(name) => name@,
        None => "-"@,
    }
}

/// A message's name, or a dash.
fn name_or_dash_text(name: Option<String>) -> (text: String)
    ensures
        text@ == name_or_dash(name),
{
    match name {
        Some(name) => name,
        None => "-".to_owned(),
    }
}

/// A peer, to be shown.
pub struct PeerRow {
    pub address: String,
    pub status: String,
    pub downloaded: usize,
    pub uploaded: usize,
    /// Since the connection began.
    pub elapsed_secs: u64,
    pub last_sent: Option<String>,
    pub last_received: Option<String>,
}

/// The row of a peer, with the texts of its sizes.
pub fn peer_cells(peer: PeerRow, downloaded: String, uploaded: String, rate: String) -> (row: Vec<
    String,
>)
    ensures
        texts(row@) == seq![
            peer.address@,
            peer.status@,
            downloaded@,
            uploaded@,
            rate@,
            name_or_dash(peer.last_sent),
            name_or_dash(peer.last_received),
        ],
{
    let ghost expected = seq![
        peer.address@,
        peer.status@,
        downloaded@,
        uploaded@,
        rate@,
        name_or_dash(peer.last_sent),
        name_or_dash(peer.last_received),
    ];
    let mut row: Vec<String> = Vec::new();
    row.push(peer.address);
    row.push(peer.status);
    row.push(downloaded);
    row.push(uploaded);
    row.push(rate);
    row.push(name_or_dash_text(peer.last_sent));
    row.push(name_or_dash_text(peer.last_received));
    assert(texts(row@) =~= expected);
    row
}

/// The row of a peer.
pub fn peer_row(peer: PeerRow) -> (row: Vec<String>)
    requires
        peer.elapsed_secs > 0 ==> peer.elapsed_secs as usize > 0,
    ensures
        exists|downloaded: Seq<char>, uploaded: Seq<char>, rate: Seq<char>|
            {
                &&& #[trigger] is_size(peer.downloaded as u64, downloaded)
                &&& #[trigger] is_size(peer.uploaded as u64, uploaded)
                &&& #[trigger] is_size(
                    rate_of(peer.downloaded, peer.elapsed_secs) as u64,
                    rate,
                )
                &&& texts(row@) == seq![
                    peer.address@,
                    peer.status@,
                    downloaded,
                    uploaded,
                    rate + "/s"@,
                    name_or_dash(peer.last_sent),
                    name_or_dash(peer.last_received),
                ]
            },
{
    let downloaded = bytes_data(peer.downloaded as u64);
    let uploaded = bytes_data(peer.uploaded as u64);
    let size = bytes_data(rate(peer.downloaded, peer.elapsed_secs) as u64);
    let ghost rate_size = size@;
    let text = per_second(size);
    let row = peer_cells(peer, downloaded, uploaded, text);
    assert(is_size(rate_of(peer.downloaded, peer.elapsed_secs) as u64, rate_size));
    row
}

/// A piece, to be shown.
#[derive(Clone, Copy, Debug)]
pub struct PieceRow {
    pub length: usize,
    pub downloaded: usize,
    pub requested: bool,
    pub finished: bool,
}

/// The row of a piece, with the texts of its sizes.
pub fn piece_cells(number: usize, piece: PieceRow, length: String, downloaded: String) -> (row: Vec<
    String,
>)
    ensures
        texts(row@) == seq![
            decimal(number as nat),
            length@,
            downloaded@,
            yes_no(piece.requested),
            yes_no(piece.finished),
        ],
{
    let ghost expected = seq![
        decimal(number as nat),
        length@,
        downloaded@,
        yes_no(piece.requested),
        yes_no(piece.finished),
    ];
    let mut row: Vec<String> = Vec::new();
    row.push(decimal_string(number as u64));
    row.push(length);
    row.push(downloaded);
    row.push(yes_no_text(piece.requested));
    row.push(yes_no_text(piece.finished));
    assert(texts(row@) =~= expected);
    row
}

/// The row of a piece.
pub fn piece_row(number: usize, piece: PieceRow) -> (row: Vec<String>)
    ensures
        exists|length: Seq<char>, downloaded: Seq<char>|
            {
                &&& #[trigger] is_size(piece.length as u64, length)
                &&& #[trigger] is_size(piece.downloaded as u64, downloaded)
                &&& texts(row@) == seq![
                    decimal(number as nat),
                    length,
                    downloaded,
                    yes_no(piece.requested),
                    yes_no(piece.finished),
                ]
            },
{
    let length = bytes_data(piece.length as u64);
    let downloaded = bytes_data(piece.downloaded as u64);
    piece_cells(number, piece, length, downloaded)
}

/// The row of a file, with the text of its size.
pub fn file_cells(name: &str, size: String) -> (row: Vec<String>)
    ensures
        texts(row@) == seq![name@, size@],
{
    let ghost expected = seq![name@, size@];
    let mut row: Vec<String> = Vec::new();
    row.push(name.to_owned());
    row.push(size);
    assert(texts(row@) =~= expected);
    row
}

/// The row of a file.
pub fn file_row(name: &str, size: u64) -> (row: Vec<String>)
    ensures
        exists|text: Seq<char>| #[trigger]
            is_size(size, text) && texts(row@) == seq![name@, text],
{
    file_cells(name, bytes_data(size))
}

/// The cells of the summary, with the texts of its sizes.
pub fn summary_cells(name: &str, size: String, downloaded: String, rate: String, peers: usize) -> (row:
    Vec<String>)
    ensures
        texts(row@) == seq![name@, size@, downloaded@, rate@, decimal(peers as nat)],
{
    let ghost expected = seq![name@, size@, downloaded@, rate@, decimal(peers as nat)];
    let mut row: Vec<String> = Vec::new();
    row.push(name.to_owned());
    row.push(size);
    row.push(downloaded);
    row.push(rate);
    row.push(decimal_string(peers as u64));
    assert(texts(row@) =~= expected);
    row
}

/// The summary: the torrent's name and size, how much of it is there, how fast it
/// comes, and the number of peers. The rate is that of all bytes that came since
/// the beginning.
pub fn summary_row(
    name: &str,
    transfer_size: usize,
    downloaded: usize,
    total_downloaded: usize,
    elapsed_secs: u64,
    peers: usize,
) -> (row: Vec<String>)
    requires
        elapsed_secs > 0 ==> elapsed_secs as usize > 0,
    ensures
        exists|size: Seq<char>, there: Seq<char>, rate: Seq<char>|
            {
                &&& #[trigger] is_size(transfer_size as u64, size)
                &&& #[trigger] is_size(downloaded as u64, there)
                &&& #[trigger] is_size(rate_of(total_downloaded, elapsed_secs) as u64, rate)
                &&& texts(row@) == seq![
                    name@,
                    size,
                    there,
                    rate + "/s"@,
                    decimal(peers as nat),
                ]
            },
{
    let size = bytes_data(transfer_size as u64);
    let there = bytes_data(downloaded as u64);
    let per = bytes_data(rate(total_downloaded, elapsed_secs) as u64);
    let ghost rate_size = per@;
    let row = summary_cells(name, size, there, per_second(per), peers);
    assert(is_size(rate_of(total_downloaded, elapsed_secs) as u64, rate_size));
    row
}

/// Going left and right again, or right and left again, leads back.
pub proof fn lemma_tabs_in_a_circle(tab: usize)
    requires
        tab < TAB_COUNT,
    ensures
        right_of(left_of(tab)) == tab,
        left_of(right_of(tab)) == tab,
        left_of(tab) < TAB_COUNT,
        right_of(tab) < TAB_COUNT,
{
}

/// A mark that lies within the list stays within it, and moving it up and down
/// again, or down and up again, leads back.
pub proof fn lemma_scroll_in_a_circle(at: usize, max: usize)
    requires
        at <= max,
    ensures
        scrolled(Some(at), max, true) <= max,
        scrolled(Some(at), max, false) <= max,
        scrolled(Some(scrolled(Some(at), max, true)), max, false) == at,
        scrolled(Some(scrolled(Some(at), max, false)), max, true) == at,
{
}

} // verus!
