//! The trackers of a torrent: when they are asked for peers, and what is made of
//! their answers.
use vstd::prelude::*;
use vstd::string::*;

use crate::address::{PeerAddress, ascending, sorted_unique};
use crate::dictionary::lookup;
use crate::engine::transfer::TransferProgress;
use crate::hashing::MAX_HASHED_LEN;
use crate::parser::{BEncodeType, Value, bytes_of, dictionary_at, entries_of, int_of};
use crate::text::{concat, decimal, decimal_string};
use crate::url::{encode_binary, url_encoded};
use crate::wire::{be_value, bytes_from, bytes_seq, get_u128, get_u16, get_u32, has_remaining};

verus! {

/// Nanoseconds in a second.
pub const NANOS_PER_SEC: u128 = 1_000_000_000;

/// The longest time in seconds after which a tracker is asked again.
pub const MAX_REANNOUNCE_SECS: u64 = 120;

/// How a tracker is reached.
#[derive(Clone, Copy, Debug, PartialEq, Eq, Structural)]
pub enum TrackerKind {
    Tcp,
    Udp,
}

/// What is known of a tracker.
#[verifier::ext_equal]
pub struct TrackerState {
    pub url: Seq<char>,
    pub kind: TrackerKind,
    pub peer_id: Seq<char>,
    pub connection_id: Seq<char>,
    pub complete_announced: bool,
    pub error_count: u32,
    /// In seconds.
    pub reannounce_rate: Option<u64>,
    /// In nanoseconds.
    pub last_announce_time: Option<u128>,
}

/// The first slash from a place on.
pub open spec fn slash_from(text: Seq<char>, at: int) -> Option<int>
    decreases text.len() - at,
{
    if at < 0 || at >= text.len() {
        None
    } else if text[at] == '/' {
        Some(at)
    } else {
        slash_from(text, at + 1)
    }
}

/// What stands between the second slash and the third one, or the end.
pub open spec fn third_segment(text: Seq<char>) -> Option<Seq<char>> {
    match slash_from(text, 0) {
        Some(first) => match slash_from(text, first + 1) {
            Some(second) => Some(
                text.subrange(
                    second + 1,
                    match slash_from(text, second + 1) {
                        Some(third) => third,
                        None => text.len() as int,
                    },
                ),
            ),
            None => None,
        },
        None => None,
    }
}

/// The URL begins with `udp`.
pub open spec fn is_udp(url: Seq<char>) -> bool {
    url.len() >= 3 && url[0] == 'u' && url[1] == 'd' && url[2] == 'p'
}

/// The tracker can be addressed: the URL of one that is reached by UDP has a
/// host.
pub open spec fn url_ok(url: Seq<char>) -> bool {
    is_udp(url) ==> third_segment(url) is Some
}

/// A tracker that was never asked. One that is reached by UDP goes by its host.
pub open spec fn fresh_tracker(url: Seq<char>, peer_id: Seq<char>) -> TrackerState {
    TrackerState {
        url: if is_udp(url) {
            third_segment(url).unwrap()
        } else {
            url
        },
        kind: if is_udp(url) {
            TrackerKind::Udp
        } else {
            TrackerKind::Tcp
        },
        peer_id,
        connection_id: Seq::empty(),
        complete_announced: false,
        error_count: 0,
        reannounce_rate: None,
        last_announce_time: None,
    }
}

/// A tracker that was asked has said when it wants to be asked again.
pub open spec fn interval_known(tracker: TrackerState) -> bool {
    tracker.last_announce_time is Some ==> tracker.reannounce_rate is Some
}

/// The tracker is to be asked: it never was, or its time has come.
pub open spec fn is_due(tracker: TrackerState, now: u128) -> bool {
    match tracker.last_announce_time {
        Some(last) => {
            let elapsed = if now >= last {
                now - last
            } else {
                0
            };
            elapsed >= tracker.reannounce_rate.unwrap() * NANOS_PER_SEC
        },
        None => true,
    }
}

/// The tracker is to be told that the torrent is complete.
pub open spec fn completes(tracker: TrackerState, progress: TransferProgress) -> bool {
    progress.left == 0 && !tracker.complete_announced
}

/// What the tracker is told.
pub open spec fn event_of(tracker: TrackerState, progress: TransferProgress) -> Seq<char> {
    if completes(tracker, progress) {
        "completed"@
    } else if tracker.last_announce_time is None {
        "started"@
    } else {
        Seq::empty()
    }
}

/// The URL by which the tracker is asked.
pub open spec fn query_of(
    tracker: TrackerState,
    info_hash: Seq<u8>,
    progress: TransferProgress,
) -> Seq<char> {
    tracker.url + "?info_hash="@ + url_encoded(info_hash) + "&peer_id="@ + tracker.peer_id
        + "&port=6881&uploaded="@ + decimal(progress.uploaded as nat) + "&downloaded="@ + decimal(
        progress.downloaded as nat,
    ) + "&left="@ + decimal(progress.left as nat) + "&compact=1&numwant=100&event="@ + event_of(
        tracker,
        progress,
    )
}

/// The addresses in a tracker's answer, six bytes each.
pub open spec fn peers_v4(bytes: Seq<u8>) -> Seq<PeerAddress> {
    Seq::new(
        bytes.len() / 6,
        |i: int|
            PeerAddress::V4 {
                ip: be_value(bytes.subrange(6 * i, 6 * i + 4)) as u32,
                port: be_value(bytes.subrange(6 * i + 4, 6 * i + 6)) as u16,
            },
    )
}

/// The addresses in a tracker's answer, eighteen bytes each.
pub open spec fn peers_v6(bytes: Seq<u8>) -> Seq<PeerAddress> {
    Seq::new(
        bytes.len() / 18,
        |i: int|
            PeerAddress::V6 {
                ip: be_value(bytes.subrange(18 * i, 18 * i + 16)) as u128,
                port: be_value(bytes.subrange(18 * i + 16, 18 * i + 18)) as u16,
            },
    )
}

/// The bytes under a key, or none.
pub open spec fn bytes_under(answer: Value, key: Seq<char>) -> Seq<u8> {
    match lookup(entries_of(answer), key) {
        Some(value) => bytes_of(value),
        None => Seq::empty(),
    }
}

/// The answer is a dictionary that holds whole addresses.
pub open spec fn answer_of(body: Seq<u8>) -> Option<Value> {
    match dictionary_at(body, 1) {
        Some((answer, end)) => if bytes_under(answer, "peers"@).len() % 6 == 0 && bytes_under(
            answer,
            "peers6"@,
        ).len() % 18 == 0 {
            Some(answer)
        } else {
            None
        },
        None => None,
    }
}

/// The peers in an answer.
pub open spec fn answer_peers(answer: Value) -> Seq<PeerAddress> {
    peers_v4(bytes_under(answer, "peers"@)) + peers_v6(bytes_under(answer, "peers6"@))
}

/// The tracker after an answer: it is asked again when it wants, or after two
/// minutes where it wants longer.
pub open spec fn tracker_answered(
    tracker: TrackerState,
    progress: TransferProgress,
    answer: Value,
    now: u128,
) -> TrackerState {
    TrackerState {
        complete_announced: tracker.complete_announced || completes(tracker, progress),
        reannounce_rate: match lookup(entries_of(answer), "interval"@) {
            Some(interval) => Some(
                if int_of(interval) < MAX_REANNOUNCE_SECS {
                    int_of(interval)
                } else {
                    MAX_REANNOUNCE_SECS
                },
            ),
            None => tracker.reannounce_rate,
        },
        last_announce_time: Some(now),
        ..tracker
    }
}

/// A tracker.
pub struct Tracker {
    url: String,
    kind: TrackerKind,
    peer_id: String,
    connection_id: String,
    complete_announced: bool,
    error_count: u32,
    reannounce_rate: Option<u64>,
    last_announce_time: Option<u128>,
}

/// The first slash from a place on.
fn find_slash(text: &str, from: usize, len: usize) -> (at: Option<usize>)
    requires
        len == text@.len(),
    ensures
        match at {
            Some(i) => slash_from(text@, from as int) == Some(i as int) && from <= i < len,
            None => slash_from(text@, from as int) is None,
        },
{
    let mut i: usize = from;
    while i < len
        invariant
            len == text@.len(),
            from <= i,
            slash_from(text@, from as int) == slash_from(text@, i as int),
        decreases len - i,
    {
        if text.get_char(i) == '/' {
            return Some(i);
        }
        i = i + 1;
    }
    None
}

impl Tracker {
    /// What is known of the tracker.
    pub closed spec fn state(self) -> TrackerState {
        TrackerState {
            url: self.url@,
            kind: self.kind,
            peer_id: self.peer_id@,
            connection_id: self.connection_id@,
            complete_announced: self.complete_announced,
            error_count: self.error_count,
            reannounce_rate: self.reannounce_rate,
            last_announce_time: self.last_announce_time,
        }
    }

    /// A tracker that was never asked, or nothing where its URL has no host.
    pub fn try_new(url: String, peer_id: String) -> (tracker: Option<Tracker>)
        ensures
            match tracker {
                Some(t) => url_ok(url@) && t.state() == fresh_tracker(url@, peer_id@),
                None => !url_ok(url@),
            },
    {
        let text = url.as_str();
        let len: usize = text.unicode_len();
        let udp = len >= 3 && text.get_char(0) == 'u' && text.get_char(1) == 'd' && text.get_char(2)
            == 'p';
        let (address, kind) = if udp {
            let first: usize = match find_slash(text, 0, len) {
                Some(at) => at,
                None => return None,
            };
            let second: usize = match find_slash(text, first + 1, len) {
                Some(at) => at,
                None => return None,
            };
            let end: usize = match find_slash(text, second + 1, len) {
                Some(at) => at,
                None => len,
            };
            (text.substring_char(second + 1, end).to_owned(), TrackerKind::Udp)
        } else {
            (text.to_owned(), TrackerKind::Tcp)
        };
        let connection_id = String::new();
        assert(connection_id@ =~= Seq::empty());
        Some(
            Tracker {
                url: address,
                kind,
                peer_id,
                connection_id,
                complete_announced: false,
                error_count: 0,
                reannounce_rate: None,
                last_announce_time: None,
            },
        )
    }

    /// A tracker that was never asked.
    pub fn new(url: String, peer_id: String) -> (tracker: Tracker)
        requires
            url_ok(url@),
        ensures
            tracker.state() == fresh_tracker(url@, peer_id@),
    {
        Tracker::try_new(url, peer_id).unwrap()
    }

    /// How the tracker is reached.
    pub fn kind(&self) -> (kind: TrackerKind)
        ensures
            kind == self.state().kind,
    {
        self.kind
    }

    /// Whether a tracker that was asked has said when it wants to be asked again.
    pub fn interval_known(&self) -> (known: bool)
        ensures
            known == interval_known(self.state()),
    {
        self.last_announce_time.is_none() || self.reannounce_rate.is_some()
    }

    /// Whether the tracker is to be asked.
    pub fn is_due(&self, now: u128) -> (due: bool)
        requires
            interval_known(self.state()),
        ensures
            due == is_due(self.state(), now),
    {
        match self.last_announce_time {
            Some(last) => {
                let elapsed: u128 = if now >= last {
                    now - last
                } else {
                    0
                };
                let rate: u64 = self.reannounce_rate.unwrap();
                elapsed >= rate as u128 * NANOS_PER_SEC
            },
            None => true,
        }
    }

    /// What the tracker is told.
    pub fn event(&self, progress: &TransferProgress) -> (event: String)
        ensures
            event@ == event_of(self.state(), *progress),
    {
        if progress.left == 0 && !self.complete_announced {
            "completed".to_owned()
        } else if self.last_announce_time.is_none() {
            "started".to_owned()
        } else {
            String::new()
        }
    }

    /// The URL by which the tracker is asked.
    pub fn query_url(&self, info_hash: &[u8; 20], progress: &TransferProgress) -> (url: String)
        ensures
            url@ == query_of(self.state(), info_hash@, *progress),
    {
        let hash = encode_binary(info_hash.as_slice());
        let event = self.event(progress);
        let mut url = concat(self.url.as_str(), "?info_hash=");
        url.append(hash.as_str());
        url.append("&peer_id=");
        url.append(self.peer_id.as_str());
        url.append("&port=6881&uploaded=");
        url.append(decimal_string(progress.uploaded).as_str());
        url.append("&downloaded=");
        url.append(decimal_string(progress.downloaded).as_str());
        url.append("&left=");
        url.append(decimal_string(progress.left).as_str());
        url.append("&compact=1&numwant=100&event=");
        url.append(event.as_str());
        url
    }

    /// Notes an answer of the tracker and gives its peers, or nothing where the
    /// answer is not a dictionary that holds whole addresses.
    pub fn try_answer(&mut self, progress: &TransferProgress, body: &Vec<u8>, now: u128) -> (peers:
        Option<Vec<PeerAddress>>)
        requires
            body@.len() <= MAX_HASHED_LEN,
        ensures
            match peers {
                Some(list) => answer_of(body@) matches Some(answer) && list@ == answer_peers(answer)
                    && final(self).state() == tracker_answered(
                    old(self).state(),
                    *progress,
                    answer,
                    now,
                ),
                None => answer_of(body@) is None && *final(self) == *old(self),
            },
    {
        let mut position: usize = 1;
        let answer = match BEncodeType::try_dictionary(body.as_slice(), &mut position) {
            Some(answer) => answer,
            None => return None,
        };
        let v4 = match answer.entry("peers") {
            Some(peers) => peers.get_string_bytes(),
            None => Vec::new(),
        };
        let v6 = match answer.entry("peers6") {
            Some(peers) => peers.get_string_bytes(),
            None => Vec::new(),
        };
        assert(v4@ =~= bytes_under(answer.model(), "peers"@));
        assert(v6@ =~= bytes_under(answer.model(), "peers6"@));
        let mut list = match read_peers_v4(v4) {
            Some(list) => list,
            None => return None,
        };
        let mut rest = match read_peers_v6(v6) {
            Some(list) => list,
            None => return None,
        };
        list.append(&mut rest);
        let ghost before = self.state();
        if let Some(interval) = answer.entry("interval") {
            let wanted: u64 = interval.get_int();
            self.reannounce_rate = Some(
                if wanted < MAX_REANNOUNCE_SECS {
                    wanted
                } else {
                    MAX_REANNOUNCE_SECS
                },
            );
        }
        if progress.left == 0 && !self.complete_announced {
            self.complete_announced = true;
        }
        self.last_announce_time = Some(now);
        assert(self.state() =~= tracker_answered(before, *progress, answer.model(), now));
        Some(list)
    }
}

/// Reads addresses of six bytes each, or nothing where the last one is not
/// whole.
pub fn read_peers_v4(bytes: Vec<u8>) -> (peers: Option<Vec<PeerAddress>>)
    ensures
        match peers {
            Some(list) => bytes@.len() % 6 == 0 && list@ == peers_v4(bytes@),
            None => bytes@.len() % 6 != 0,
        },
{
    if bytes.len() % 6 != 0 {
        return None;
    }
    let ghost all = bytes@;
    let mut data = bytes_from(bytes);
    let mut peers: Vec<PeerAddress> = Vec::new();
    assert(bytes_seq(data) =~= all.skip(0));
    while has_remaining(&data)
        invariant
            all.len() % 6 == 0,
            6 * peers@.len() <= all.len(),
            bytes_seq(data) == all.skip(6 * peers@.len() as int),
            forall|i: int| 0 <= i < peers@.len() ==> #[trigger] peers@[i] == peers_v4(all)[i],
        decreases bytes_seq(data).len(),
    {
        let ghost at = 6 * peers@.len() as int;
        assert(bytes_seq(data).take(4) =~= all.subrange(at, at + 4));
        let ip: u32 = get_u32(&mut data);
        assert(bytes_seq(data).take(2) =~= all.subrange(at + 4, at + 6));
        let port: u16 = get_u16(&mut data);
        assert(bytes_seq(data) =~= all.skip(at + 6));
        peers.push(PeerAddress::V4 { ip, port });
    }
    assert(peers@ =~= peers_v4(all));
    Some(peers)
}

/// Reads addresses of eighteen bytes each, or nothing where the last one is not
/// whole.
pub fn read_peers_v6(bytes: Vec<u8>) -> (peers: Option<Vec<PeerAddress>>)
    ensures
        match peers {
            Some(list) => bytes@.len() % 18 == 0 && list@ == peers_v6(bytes@),
            None => bytes@.len() % 18 != 0,
        },
{
    if bytes.len() % 18 != 0 {
        return None;
    }
    let ghost all = bytes@;
    let mut data = bytes_from(bytes);
    let mut peers: Vec<PeerAddress> = Vec::new();
    assert(bytes_seq(data) =~= all.skip(0));
    while has_remaining(&data)
        invariant
            all.len() % 18 == 0,
            18 * peers@.len() <= all.len(),
            bytes_seq(data) == all.skip(18 * peers@.len() as int),
            forall|i: int| 0 <= i < peers@.len() ==> #[trigger] peers@[i] == peers_v6(all)[i],
        decreases bytes_seq(data).len(),
    {
        let ghost at = 18 * peers@.len() as int;
        assert(bytes_seq(data).take(16) =~= all.subrange(at, at + 16));
        let ip: u128 = get_u128(&mut data);
        assert(bytes_seq(data).take(2) =~= all.subrange(at + 16, at + 18));
        let port: u16 = get_u16(&mut data);
        assert(bytes_seq(data) =~= all.skip(at + 18));
        peers.push(PeerAddress::V6 { ip, port });
    }
    assert(peers@ =~= peers_v6(all));
    Some(peers)
}

/// The trackers as they are known.
pub open spec fn tracker_states(trackers: Seq<Tracker>) -> Seq<TrackerState> {
    trackers.map_values(|t: Tracker| t.state())
}

/// The name that this client goes by: twenty zeros.
pub open spec fn client_name() -> Seq<char> {
    Seq::new(20, |i: int| '0')
}

/// All trackers of a torrent.
pub struct TrackersHandler {
    info_hash: [u8; 20],
    progress: TransferProgress,
    trackers: Vec<Tracker>,
}

impl TrackersHandler {
    /// The digest of the torrent.
    pub closed spec fn torrent(self) -> Seq<u8> {
        self.info_hash@
    }

    /// How far the torrent has come, as far as the trackers are told.
    pub closed spec fn told(self) -> TransferProgress {
        self.progress
    }

    /// The trackers as they are known.
    pub closed spec fn states(self) -> Seq<TrackerState> {
        tracker_states(self.trackers@)
    }

    /// Trackers that were never asked, or nothing where one of them cannot be
    /// addressed.
    pub fn try_init(info_hash: [u8; 20], progress: TransferProgress, urls: &Vec<String>) -> (handler:
        Option<TrackersHandler>)
        ensures
            match handler {
                Some(h) => h.torrent() == info_hash@ && h.told() == progress && h.states().len()
                    == urls@.len() && (forall|i: int|
                    0 <= i < urls@.len() ==> url_ok((#[trigger] urls@[i])@) && h.states()[i]
                        == fresh_tracker(urls@[i]@, client_name())),
                None => exists|i: int| 0 <= i < urls@.len() && !url_ok((#[trigger] urls@[i])@),
            },
    {
        let mut trackers: Vec<Tracker> = Vec::new();
        let mut i: usize = 0;
        while i < urls.len()
            invariant
                i <= urls@.len(),
                trackers@.len() == i,
                forall|k: int|
                    0 <= k < i ==> url_ok((#[trigger] urls@[k])@) && trackers@[k].state()
                        == fresh_tracker(urls@[k]@, client_name()),
            decreases urls@.len() - i,
        {
            let peer_id = "00000000000000000000".to_owned();
            proof {
                reveal_strlit("00000000000000000000");
                assert(peer_id@ =~= client_name());
            }
            match Tracker::try_new(urls[i].as_str().to_owned(), peer_id) {
                Some(tracker) => trackers.push(tracker),
                None => {
                    assert(!url_ok(urls@[i as int]@));
                    return None;
                },
            }
            i = i + 1;
        }
        Some(TrackersHandler { info_hash, progress, trackers })
    }

    /// The number of trackers.
    pub fn len(&self) -> (count: usize)
        ensures
            count == self.states().len(),
    {
        self.trackers.len()
    }

    /// Whether the tracker, where it was asked, has said when it wants to be asked
    /// again.
    pub fn interval_known(&self, tracker: usize) -> (known: bool)
        requires
            tracker < self.states().len(),
        ensures
            known == interval_known(self.states()[tracker as int]),
    {
        self.trackers[tracker].interval_known()
    }

    /// The URL by which the tracker is asked now, or nothing where its time has not
    /// come.
    pub fn announce(&self, tracker: usize, now: u128) -> (url: Option<String>)
        requires
            tracker < self.states().len(),
            interval_known(self.states()[tracker as int]),
        ensures
            match url {
                Some(u) => is_due(self.states()[tracker as int], now) && u@ == query_of(
                    self.states()[tracker as int],
                    self.torrent(),
                    self.told(),
                ),
                None => !is_due(self.states()[tracker as int], now),
            },
    {
        let asked = &self.trackers[tracker];
        if asked.is_due(now) {
            Some(asked.query_url(&self.info_hash, &self.progress))
        } else {
            None
        }
    }

    /// Notes an answer of the tracker and gives its peers, or nothing where the
    /// answer is not a dictionary that holds whole addresses.
    pub fn try_answer(&mut self, tracker: usize, body: &Vec<u8>, now: u128) -> (peers: Option<
        Vec<PeerAddress>,
    >)
        requires
            tracker < old(self).states().len(),
            body@.len() <= MAX_HASHED_LEN,
        ensures
            final(self).torrent() == old(self).torrent(),
            final(self).told() == old(self).told(),
            match peers {
                Some(list) => answer_of(body@) matches Some(answer) && list@ == answer_peers(answer)
                    && final(self).states() == old(self).states().update(
                    tracker as int,
                    tracker_answered(
                        old(self).states()[tracker as int],
                        old(self).told(),
                        answer,
                        now,
                    ),
                ),
                None => answer_of(body@) is None && final(self).states() == old(self).states(),
            },
    {
        let ghost before = self.states();
        let progress = self.progress;
        let peers = self.trackers[tracker].try_answer(&progress, body, now);
        proof {
            assert(self.states() =~= before.update(
                tracker as int,
                self.trackers@[tracker as int].state(),
            ));
            if peers is None {
                assert(self.states() =~= before);
            }
        }
        peers
    }

    /// Notes how far the torrent has come.
    pub fn set_progress(&mut self, progress: TransferProgress)
        ensures
            final(self).torrent() == old(self).torrent(),
            final(self).told() == progress,
            final(self).states() == old(self).states(),
    {
        self.progress = progress;
    }
}

/// The peers that were received, or none.
pub open spec fn listed(peers: Option<Vec<PeerAddress>>) -> Seq<PeerAddress> {
    match peers {
        Some(list) => list@,
        None => Seq::empty(),
    }
}

/// The peers of all trackers, in order and each one once.
pub fn received_peers(tcp: Option<Vec<PeerAddress>>, udp: Option<Vec<PeerAddress>>) -> (peers: Vec<
    PeerAddress,
>)
    ensures
        ascending(peers@),
        forall|a: PeerAddress| #[trigger]
            peers@.contains(a) <==> listed(tcp).contains(a) || listed(udp).contains(a),
{
    let mut all: Vec<PeerAddress> = Vec::new();
    let ghost first = listed(tcp);
    let ghost second = listed(udp);
    if let Some(list) = tcp {
        let mut list = list;
        all.append(&mut list);
    }
    if let Some(list) = udp {
        let mut list = list;
        all.append(&mut list);
    }
    assert(all@ =~= first + second);
    let peers = sorted_unique(&all);
    assert forall|a: PeerAddress| #[trigger]
        peers@.contains(a) <==> first.contains(a) || second.contains(a) by {
        let both = first + second;
        assert(peers@.contains(a) <==> both.contains(a));
        if both.contains(a) {
            let k = choose|k: int| 0 <= k < both.len() && both[k] == a;
            if k < first.len() {
                assert(first[k] == a);
            } else {
                assert(second[k - first.len()] == a);
            }
        }
        if first.contains(a) {
            let k = choose|k: int| 0 <= k < first.len() && first[k] == a;
            assert(both[k] == a);
        }
        if second.contains(a) {
            let k = choose|k: int| 0 <= k < second.len() && second[k] == a;
            assert(both[first.len() + k] == a);
        }
    }
    peers
}

/// A tracker that has answered is not asked again before its time, and that time
/// is at most two minutes where the answer named one.
pub proof fn lemma_not_asked_too_soon(
    tracker: TrackerState,
    progress: TransferProgress,
    answer: Value,
    asked: u128,
    now: u128,
)
    requires
        interval_known(tracker_answered(tracker, progress, answer, asked)),
        asked <= now,
    ensures
        ({
            let after = tracker_answered(tracker, progress, answer, asked);
            &&& is_due(after, now) <==> now - asked >= after.reannounce_rate.unwrap()
                * NANOS_PER_SEC
            &&& lookup(entries_of(answer), "interval"@) is Some
                ==> after.reannounce_rate.unwrap() <= MAX_REANNOUNCE_SECS
        }),
{
}

/// A tracker is told once that the torrent is complete: after the answer it is
/// not told so again, whatever comes.
pub proof fn lemma_completed_is_told_once(
    tracker: TrackerState,
    progress: TransferProgress,
    answer: Value,
    now: u128,
    later: TransferProgress,
)
    requires
        completes(tracker, progress),
    ensures
        !completes(tracker_answered(tracker, progress, answer, now), later),
{
}

/// An answer names the peers of both kinds of address, one after the other, and
/// each of them has its place.
pub proof fn lemma_answer_peers(answer: Value)
    ensures
        answer_peers(answer).len() == bytes_under(answer, "peers"@).len() / 6 + bytes_under(
            answer,
            "peers6"@,
        ).len() / 18,
        forall|i: int|
            0 <= i < bytes_under(answer, "peers"@).len() / 6 ==> (#[trigger] answer_peers(
                answer,
            )[i]) is V4,
        forall|i: int|
            bytes_under(answer, "peers"@).len() / 6 <= i < answer_peers(answer).len() ==> (
            #[trigger] answer_peers(answer)[i]) is V6,
{
}

} // verus!
