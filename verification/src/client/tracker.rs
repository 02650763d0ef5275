//! Trackers that are asked for peers.
use vstd::prelude::*;
use vstd::string::*;

use crate::address::PeerAddress;
use crate::dictionary::lookup;
use crate::engine::tracker::{bytes_under, peers_v4, read_peers_v4};
use crate::hashing::MAX_HASHED_LEN;
use crate::parser::{BEncodeType, Value, bytes_of, dictionary_at, entries_of, int_of};
use crate::text::{concat, decimal, decimal_string, texts};
use crate::url::{encode_binary, url_encoded};

verus! {

/// Nanoseconds in a second.
pub const NANOS_PER_SEC: u128 = 1_000_000_000;

/// How long a tracker waits at first, in seconds.
pub const FIRST_INTERVAL: u64 = 20;

/// How often a tracker is asked at most, when it does not answer.
pub const ATTEMPTS: usize = 3;

/// How a tracker is reached.
pub enum TrackerKind {
    Tcp(TcpTracker),
    Udp,
}

/// What a tracker is told.
#[derive(Clone, Copy, Debug, PartialEq, Eq, Structural)]
pub enum TrackerEvent {
    Started,
    Stopped,
    Completed,
    PeriodicRequest,
}

/// What is known of a tracker.
#[verifier::ext_equal]
pub struct TcpTrackerState {
    pub client_id: Seq<char>,
    pub tracker_url: Seq<char>,
    pub peers_list: Seq<PeerAddress>,
    pub announced: bool,
    /// In seconds.
    pub announce_interval: u64,
    /// In nanoseconds.
    pub last_message_time: u128,
}

/// The URL begins with `udp:`.
pub open spec fn is_udp(url: Seq<char>) -> bool {
    url.len() >= 4 && url[0] == 'u' && url[1] == 'd' && url[2] == 'p' && url[3] == ':'
}

/// A tracker that was never asked.
pub open spec fn new_tracker(
    client_id: Seq<char>,
    tracker_url: Seq<char>,
    now: u128,
) -> TcpTrackerState {
    TcpTrackerState {
        client_id,
        tracker_url,
        peers_list: Seq::empty(),
        announced: false,
        announce_interval: FIRST_INTERVAL,
        last_message_time: now,
    }
}

/// The tracker is not asked: it was asked before, and its interval is over.
pub open spec fn is_skipped(tracker: TcpTrackerState, event: TrackerEvent, now: u128) -> bool {
    let elapsed = if now >= tracker.last_message_time {
        now - tracker.last_message_time
    } else {
        0
    };
    event is PeriodicRequest && tracker.announced && elapsed >= tracker.announce_interval
        * NANOS_PER_SEC
}

/// What the tracker is told, as it stands in the query.
pub open spec fn event_text(event: TrackerEvent) -> Seq<char> {
    match event {
        TrackerEvent::Started => "&event=started"@,
        TrackerEvent::Stopped => "&event=stopped"@,
        TrackerEvent::Completed => "&event=completed"@,
        TrackerEvent::PeriodicRequest => Seq::empty(),
    }
}

/// The bytes of so many pieces can be counted.
pub open spec fn countable(piece_length: usize, pieces: usize) -> bool {
    piece_length * pieces <= usize::MAX
}

/// The URL by which the tracker is asked. Every piece counts as whole.
pub open spec fn query_of(
    tracker: TcpTrackerState,
    info_hash: Seq<u8>,
    piece_length: usize,
    pieces: usize,
    missing: usize,
    event: TrackerEvent,
) -> Seq<char> {
    let left = (piece_length * missing) as nat;
    let downloaded = (piece_length * pieces - piece_length * missing) as nat;
    tracker.tracker_url + "?info_hash="@ + url_encoded(info_hash) + "&peer_id="@
        + tracker.client_id + "&port=6881&uploaded=0&downloaded="@ + decimal(downloaded)
        + "&left="@ + decimal(left) + "&compact=1"@ + event_text(event)
}

/// The answer is a dictionary that holds whole addresses.
pub open spec fn answer_of(body: Seq<u8>) -> Option<Value> {
    match dictionary_at(body, 1) {
        Some((answer, end)) => if bytes_under(answer, "peers"@).len() % 6 == 0 {
            Some(answer)
        } else {
            None
        },
        None => None,
    }
}

/// The tracker after an answer.
pub open spec fn tracker_answered(tracker: TcpTrackerState, answer: Value) -> TcpTrackerState {
    TcpTrackerState {
        peers_list: match lookup(entries_of(answer), "peers"@) {
            Some(peers) => peers_v4(bytes_of(peers)),
            None => tracker.peers_list,
        },
        announce_interval: match lookup(entries_of(answer), "interval"@) {
            Some(interval) => int_of(interval),
            None => tracker.announce_interval,
        },
        announced: true,
        ..tracker
    }
}

/// What a tracker is told next.
pub fn next_event(announced: bool) -> (event: TrackerEvent)
    ensures
        event == (if announced {
            TrackerEvent::PeriodicRequest
        } else {
            TrackerEvent::Started
        }),
{
    if announced {
        TrackerEvent::PeriodicRequest
    } else {
        TrackerEvent::Started
    }
}

/// A tracker.
pub struct TcpTracker {
    client_id: String,
    tracker_url: String,
    peers_list: Vec<PeerAddress>,
    announced: bool,
    announce_interval: u64,
    last_message_time: u128,
}

/// Whether the URL begins with `udp:`.
pub fn starts_with_udp(url: &str) -> (udp: bool)
    ensures
        udp == is_udp(url@),
{
    url.unicode_len() >= 4 && url.get_char(0) == 'u' && url.get_char(1) == 'd' && url.get_char(2)
        == 'p' && url.get_char(3) == ':'
}

impl TcpTracker {
    /// What is known of the tracker.
    pub closed spec fn state(self) -> TcpTrackerState {
        TcpTrackerState {
            client_id: self.client_id@,
            tracker_url: self.tracker_url@,
            peers_list: self.peers_list@,
            announced: self.announced,
            announce_interval: self.announce_interval,
            last_message_time: self.last_message_time,
        }
    }

    /// A tracker that was never asked.
    pub fn new(client_id: String, tracker_url: String, now: u128) -> (tracker: TcpTracker)
        requires
            !is_udp(tracker_url@),
        ensures
            tracker.state() == new_tracker(client_id@, tracker_url@, now),
    {
        let tracker = TcpTracker {
            client_id,
            tracker_url,
            peers_list: Vec::new(),
            announced: false,
            announce_interval: FIRST_INTERVAL,
            last_message_time: now,
        };
        assert(tracker.state() =~= new_tracker(client_id@, tracker_url@, now));
        tracker
    }

    /// Whether the tracker has answered.
    pub fn is_announced(&self) -> (announced: bool)
        ensures
            announced == self.state().announced,
    {
        self.announced
    }

    /// The peers of the last answer.
    pub fn get_peers(&self) -> (peers: &Vec<PeerAddress>)
        ensures
            peers@ == self.state().peers_list,
    {
        &self.peers_list
    }

    /// The URL by which the tracker is asked; nothing where it is not asked now.
    pub fn send_message(
        &self,
        event: TrackerEvent,
        info_hash: &[u8; 20],
        piece_length: usize,
        pieces: usize,
        missing: usize,
        now: u128,
    ) -> (url: Option<String>)
        requires
            countable(piece_length, pieces),
            missing <= pieces,
        ensures
            match url {
                Some(u) => !is_skipped(self.state(), event, now) && u@ == query_of(
                    self.state(),
                    info_hash@,
                    piece_length,
                    pieces,
                    missing,
                    event,
                ),
                None => is_skipped(self.state(), event, now),
            },
    {
        let elapsed: u128 = if now >= self.last_message_time {
            now - self.last_message_time
        } else {
            0
        };
        let should_reannounce = elapsed < self.announce_interval as u128 * NANOS_PER_SEC;
        let event_string = match event {
            TrackerEvent::Started => "&event=started".to_owned(),
            TrackerEvent::Stopped => "&event=stopped".to_owned(),
            TrackerEvent::Completed => "&event=completed".to_owned(),
            TrackerEvent::PeriodicRequest => {
                if self.announced && !should_reannounce {
                    return None;
                }
                String::new()
            },
        };
        assert(event_string@ =~= event_text(event));
        proof {
            assert(piece_length * missing <= piece_length * pieces) by (nonlinear_arith)
                requires
                    missing <= pieces,
            ;
        }
        let total: usize = piece_length * pieces;
        let left: usize = piece_length * missing;
        let downloaded: usize = total - left;
        let hash = encode_binary(info_hash.as_slice());
        let mut url = concat(self.tracker_url.as_str(), "?info_hash=");
        url.append(hash.as_str());
        url.append("&peer_id=");
        url.append(self.client_id.as_str());
        url.append("&port=6881&uploaded=0&downloaded=");
        url.append(decimal_string(downloaded as u64).as_str());
        url.append("&left=");
        url.append(decimal_string(left as u64).as_str());
        url.append("&compact=1");
        url.append(event_string.as_str());
        Some(url)
    }

    /// Notes an answer of the tracker, and says whether it is a dictionary that
    /// holds whole addresses. Any other answer changes nothing.
    pub fn try_answer(&mut self, body: &Vec<u8>) -> (taken: bool)
        requires
            body@.len() <= MAX_HASHED_LEN,
        ensures
            taken == (answer_of(body@) is Some),
            taken ==> final(self).state() == tracker_answered(
                old(self).state(),
                answer_of(body@).unwrap(),
            ),
            !taken ==> *final(self) == *old(self),
    {
        let mut position: usize = 1;
        let answer = match BEncodeType::try_dictionary(body.as_slice(), &mut position) {
            Some(answer) => answer,
            None => return false,
        };
        let ghost before = self.state();
        if let Some(peers) = answer.entry("peers") {
            match read_peers_v4(peers.get_string_bytes()) {
                Some(list) => {
                    self.peers_list = list;
                },
                None => return false,
            }
        }
        if let Some(interval) = answer.entry("interval") {
            self.announce_interval = interval.get_int();
        }
        self.announced = true;
        assert(self.state() =~= tracker_answered(before, answer.model()));
        true
    }
}

/// The trackers of a list that are asked: those whose URL does not begin with
/// `udp:`.
pub open spec fn asked(urls: Seq<Seq<char>>) -> Seq<Seq<char>>
    decreases urls.len(),
{
    if urls.len() == 0 {
        Seq::empty()
    } else {
        let before = asked(urls.drop_last());
        if is_udp(urls.last()) {
            before
        } else {
            before.push(urls.last())
        }
    }
}

/// The name that this client goes by: twenty times the letter `r`.
pub open spec fn client_name() -> Seq<char> {
    Seq::new(20, |i: int| 'r')
}

/// The trackers of a list that are asked, none of which was asked before.
pub fn create_trackers(trackers: &Vec<String>, now: u128) -> (result: Vec<TrackerKind>)
    ensures
        result@.len() == asked(texts(trackers@)).len(),
        forall|i: int|
            0 <= i < result@.len() ==> ((#[trigger] result@[i]) matches TrackerKind::Tcp(tracker)
                && tracker.state() == new_tracker(
                client_name(),
                asked(texts(trackers@))[i],
                now,
            )),
{
    let ghost urls = texts(trackers@);
    let mut result: Vec<TrackerKind> = Vec::new();
    let mut i: usize = 0;
    assert(urls.take(0) =~= Seq::empty());
    while i < trackers.len()
        invariant
            i <= trackers@.len(),
            urls == texts(trackers@),
            result@.len() == asked(urls.take(i as int)).len(),
            forall|k: int|
                0 <= k < result@.len() ==> ((
                #[trigger] result@[k]) matches TrackerKind::Tcp(tracker) && tracker.state()
                    == new_tracker(client_name(), asked(urls.take(i as int))[k], now)),
        decreases trackers@.len() - i,
    {
        assert(urls.take(i + 1).drop_last() =~= urls.take(i as int));
        assert(urls[i as int] == trackers@[i as int]@);
        let url = trackers[i].as_str();
        if !starts_with_udp(url) {
            let client_id = "rrrrrrrrrrrrrrrrrrrr".to_owned();
            proof {
                reveal_strlit("rrrrrrrrrrrrrrrrrrrr");
                assert(client_id@ =~= client_name());
            }
            result.push(TrackerKind::Tcp(TcpTracker::new(client_id, url.to_owned(), now)));
        }
        i = i + 1;
    }
    assert(urls.take(i as int) =~= urls);
    result
}

/// Whether the bytes of so many pieces can be counted.
pub fn is_countable(piece_length: usize, pieces: usize) -> (can: bool)
    ensures
        can == countable(piece_length, pieces),
{
    piece_length.checked_mul(pieces).is_some()
}

/// Whether a tracker is asked once more, after so many attempts.
pub fn asks_again(attempts: usize, answered: bool) -> (again: bool)
    ensures
        again == (!answered && attempts < ATTEMPTS),
{
    !answered && attempts < ATTEMPTS
}

/// A tracker that was told of anything but a periodic request is always asked,
/// and so is one that has never answered.
pub proof fn lemma_asked_unless_periodic(
    tracker: TcpTrackerState,
    event: TrackerEvent,
    now: u128,
)
    ensures
        !(event is PeriodicRequest) || !tracker.announced ==> !is_skipped(tracker, event, now),
{
}

} // verus!
