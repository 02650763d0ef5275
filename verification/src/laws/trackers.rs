//! What trackers are asked, and what is made of their answers.
use vstd::prelude::*;

use crate::address::PeerAddress;
use crate::dictionary::lookup;
use crate::engine::tracker::{
    TrackerKind, TrackerState, answer_of, answer_peers, bytes_under, client_name, event_of,
    fresh_tracker, interval_known, is_due, peers_v4, peers_v6, query_of, slash_from,
    tracker_answered, url_ok,
};
use crate::bencode::TorrentValue;
use crate::engine::transfer::{TransferProgress, is_tracker};
use crate::parser::{Value, bytes_of, dictionary_at, entries_of, int_of};
use crate::text::decimal;
use crate::url::url_encoded;
use crate::wire::{
    be_bytes, lemma_be_bytes_len, lemma_be_round_trip, lemma_be_unique, lemma_byte_ranges,
};

verus! {

/// An address as trackers write it: the four or sixteen bytes of the internet address
/// and the two bytes of the port, the most significant ones first.
pub open spec fn written(address: PeerAddress) -> Seq<u8> {
    match address {
        PeerAddress::V4 { ip, port } => be_bytes(ip as nat, 4) + be_bytes(port as nat, 2),
        PeerAddress::V6 { ip, port } => be_bytes(ip as nat, 16) + be_bytes(port as nat, 2),
    }
}

/// Addresses as trackers write them, one after the other.
pub open spec fn all_written(addresses: Seq<PeerAddress>) -> Seq<u8>
    decreases addresses.len(),
{
    if addresses.len() == 0 {
        Seq::empty()
    } else {
        all_written(addresses.drop_last()) + written(addresses.last())
    }
}

/// Writing the addresses that were read gives the bytes that they were read from.
pub proof fn lemma_addresses_v4_are_the_bytes(bytes: Seq<u8>)
    requires
        bytes.len() % 6 == 0,
    ensures
        all_written(peers_v4(bytes)) == bytes,
        forall|i: int|
            0 <= i < peers_v4(bytes).len() ==> (#[trigger] peers_v4(bytes)[i]) is V4,
    decreases bytes.len(),
{
    let peers = peers_v4(bytes);
    if bytes.len() == 0 {
        assert(all_written(peers) =~= bytes);
    } else {
        let at = bytes.len() - 6;
        let shorter = bytes.take(at);
        lemma_addresses_v4_are_the_bytes(shorter);
        assert forall|i: int| 0 <= i < peers.len() - 1 implies peers_v4(shorter)[i] == peers[i] by {
            assert(shorter.subrange(6 * i, 6 * i + 4) =~= bytes.subrange(6 * i, 6 * i + 4));
            assert(shorter.subrange(6 * i + 4, 6 * i + 6) =~= bytes.subrange(6 * i + 4, 6 * i + 6));
        }
        assert(peers.drop_last() =~= peers_v4(shorter));
        let n = peers.len() - 1;
        assert(6 * n == at);
        let ip = bytes.subrange(6 * n, 6 * n + 4);
        let port = bytes.subrange(6 * n + 4, 6 * n + 6);
        lemma_be_unique(ip);
        lemma_be_unique(port);
        lemma_byte_ranges();
        assert(written(peers.last()) == ip + port);
        assert(shorter + (ip + port) =~= bytes);
    }
}

/// Writing the addresses of the sixth version that were read gives the bytes that they
/// were read from.
pub proof fn lemma_addresses_v6_are_the_bytes(bytes: Seq<u8>)
    requires
        bytes.len() % 18 == 0,
    ensures
        all_written(peers_v6(bytes)) == bytes,
        forall|i: int|
            0 <= i < peers_v6(bytes).len() ==> (#[trigger] peers_v6(bytes)[i]) is V6,
    decreases bytes.len(),
{
    let peers = peers_v6(bytes);
    if bytes.len() == 0 {
        assert(all_written(peers) =~= bytes);
    } else {
        let at = bytes.len() - 18;
        let shorter = bytes.take(at);
        lemma_addresses_v6_are_the_bytes(shorter);
        assert forall|i: int| 0 <= i < peers.len() - 1 implies peers_v6(shorter)[i] == peers[i] by {
            assert(shorter.subrange(18 * i, 18 * i + 16) =~= bytes.subrange(18 * i, 18 * i + 16));
            assert(shorter.subrange(18 * i + 16, 18 * i + 18) =~= bytes.subrange(
                18 * i + 16,
                18 * i + 18,
            ));
        }
        assert(peers.drop_last() =~= peers_v6(shorter));
        let n = peers.len() - 1;
        assert(18 * n == at);
        let ip = bytes.subrange(18 * n, 18 * n + 16);
        let port = bytes.subrange(18 * n + 16, 18 * n + 18);
        lemma_be_unique(ip);
        lemma_be_unique(port);
        lemma_byte_ranges();
        assert(written(peers.last()) == ip + port);
        assert(shorter + (ip + port) =~= bytes);
    }
}

/// The addresses that a tracker wrote are read back, each with its own port.
pub proof fn lemma_addresses_v4_are_read_back(addresses: Seq<PeerAddress>)
    requires
        forall|i: int| 0 <= i < addresses.len() ==> (#[trigger] addresses[i]) is V4,
    ensures
        all_written(addresses).len() == 6 * addresses.len(),
        peers_v4(all_written(addresses)) == addresses,
    decreases addresses.len(),
{
    broadcast use lemma_be_bytes_len;

    let bytes = all_written(addresses);
    if addresses.len() > 0 {
        let shorter = addresses.drop_last();
        assert forall|i: int| 0 <= i < shorter.len() implies (#[trigger] shorter[i]) is V4 by {
            assert(shorter[i] == addresses[i]);
        }
        lemma_addresses_v4_are_read_back(shorter);
        let before = all_written(shorter);
        let n = shorter.len() as int;
        assert(addresses[n] is V4);
        let last = written(addresses.last());
        lemma_byte_ranges();
        lemma_be_round_trip(addresses.last()->V4_ip as nat, 4);
        lemma_be_round_trip(addresses.last()->V4_port as nat, 2);
        assert(bytes.subrange(6 * n, 6 * n + 4) =~= be_bytes(addresses.last()->V4_ip as nat, 4));
        assert(bytes.subrange(6 * n + 4, 6 * n + 6) =~= be_bytes(
            addresses.last()->V4_port as nat,
            2,
        ));
        assert forall|i: int| 0 <= i < addresses.len() implies peers_v4(bytes)[i]
            == addresses[i] by {
            if i < n {
                assert(bytes.subrange(6 * i, 6 * i + 4) =~= before.subrange(6 * i, 6 * i + 4));
                assert(bytes.subrange(6 * i + 4, 6 * i + 6) =~= before.subrange(
                    6 * i + 4,
                    6 * i + 6,
                ));
                assert(peers_v4(before)[i] == shorter[i]);
            }
        }
    }
    assert(peers_v4(bytes) =~= addresses);
}

/// The peers of an answer, written as trackers write them, are what the answer holds
/// under `peers` and then under `peers6`.
pub proof fn lemma_answer_is_read_whole(body: Seq<u8>)
    requires
        answer_of(body) is Some,
    ensures
        ({
            let answer = answer_of(body).unwrap();
            let v4 = bytes_under(answer, "peers"@);
            let v6 = bytes_under(answer, "peers6"@);
            all_written(answer_peers(answer)) == v4 + v6
        }),
{
    let answer = answer_of(body).unwrap();
    let v4 = bytes_under(answer, "peers"@);
    let v6 = bytes_under(answer, "peers6"@);
    lemma_addresses_v4_are_the_bytes(v4);
    lemma_addresses_v6_are_the_bytes(v6);
    lemma_written_one_after_the_other(peers_v4(v4), peers_v6(v6));
}

proof fn lemma_written_one_after_the_other(first: Seq<PeerAddress>, second: Seq<PeerAddress>)
    ensures
        all_written(first + second) == all_written(first) + all_written(second),
    decreases second.len(),
{
    if second.len() == 0 {
        assert(first + second =~= first);
        assert(all_written(first + second) =~= all_written(first) + all_written(second));
    } else {
        lemma_written_one_after_the_other(first, second.drop_last());
        assert((first + second).drop_last() =~= first + second.drop_last());
        assert((first + second).last() == second.last());
        assert(all_written(first + second) =~= all_written(first) + all_written(second));
    }
}

/// A URL with parameters behind it: a question mark before the first one, an ampersand
/// before each other one, and an equals sign between its name and its value.
pub open spec fn with_parameters(url: Seq<char>, parameters: Seq<(Seq<char>, Seq<char>)>) -> Seq<
    char,
>
    decreases parameters.len(),
{
    if parameters.len() == 0 {
        url
    } else {
        let (name, value) = parameters.last();
        with_parameters(url, parameters.drop_last()).push(
            if parameters.len() == 1 {
                '?'
            } else {
                '&'
            },
        ) + name.push('=') + value
    }
}

/// A tracker is asked for at most a hundred peers, in the short form, and told which
/// torrent is meant, who asks, at which port the client listens, what was uploaded and
/// downloaded, what is left, and what happened.
pub proof fn lemma_what_a_tracker_is_asked(
    tracker: TrackerState,
    info_hash: Seq<u8>,
    progress: TransferProgress,
)
    ensures
        query_of(tracker, info_hash, progress) == with_parameters(
            tracker.url,
            seq![
                ("info_hash"@, url_encoded(info_hash)),
                ("peer_id"@, tracker.peer_id),
                ("port"@, "6881"@),
                ("uploaded"@, decimal(progress.uploaded as nat)),
                ("downloaded"@, decimal(progress.downloaded as nat)),
                ("left"@, decimal(progress.left as nat)),
                ("compact"@, "1"@),
                ("numwant"@, "100"@),
                ("event"@, event_of(tracker, progress)),
            ],
        ),
{
    let all = seq![
        ("info_hash"@, url_encoded(info_hash)),
        ("peer_id"@, tracker.peer_id),
        ("port"@, "6881"@),
        ("uploaded"@, decimal(progress.uploaded as nat)),
        ("downloaded"@, decimal(progress.downloaded as nat)),
        ("left"@, decimal(progress.left as nat)),
        ("compact"@, "1"@),
        ("numwant"@, "100"@),
        ("event"@, event_of(tracker, progress)),
    ];
    let url = tracker.url;
    lemma_marks();
    assert(all.take(0) =~= Seq::empty());
    assert(all.take(9) =~= all);
    let a = url + "?info_hash="@ + url_encoded(info_hash);
    lemma_next_parameter(url, all, 1);
    assert(with_parameters(url, all.take(1)) == a);
    let b = a + "&peer_id="@ + tracker.peer_id;
    lemma_next_parameter(url, all, 2);
    assert(with_parameters(url, all.take(2)) == b);
    let uploaded = decimal(progress.uploaded as nat);
    let c = b + "&port=6881&uploaded="@ + uploaded;
    lemma_next_parameter(url, all, 3);
    lemma_next_parameter(url, all, 4);
    assert(with_parameters(url, all.take(4)) == c) by {
        let middle = b + mark('&', "port"@) + "6881"@;
        assert(middle + mark('&', "uploaded"@) =~= b + "&port=6881&uploaded="@);
    }
    let d = c + "&downloaded="@ + decimal(progress.downloaded as nat);
    lemma_next_parameter(url, all, 5);
    assert(with_parameters(url, all.take(5)) == d);
    let e = d + "&left="@ + decimal(progress.left as nat);
    lemma_next_parameter(url, all, 6);
    assert(with_parameters(url, all.take(6)) == e);
    let f = e + "&compact=1&numwant=100&event="@ + event_of(tracker, progress);
    lemma_next_parameter(url, all, 7);
    lemma_next_parameter(url, all, 8);
    lemma_next_parameter(url, all, 9);
    assert(with_parameters(url, all.take(9)) == f) by {
        let first = e + mark('&', "compact"@) + "1"@;
        let second = first + mark('&', "numwant"@) + "100"@;
        assert(second + mark('&', "event"@) =~= e + "&compact=1&numwant=100&event="@);
    }
}

/// What stands before the value of a parameter.
pub open spec fn mark(before: char, name: Seq<char>) -> Seq<char> {
    seq![before] + name + seq!['=']
}

proof fn lemma_marks()
    ensures
        "?info_hash="@ == mark('?', "info_hash"@),
        "&peer_id="@ == mark('&', "peer_id"@),
        "&port=6881&uploaded="@ == mark('&', "port"@) + "6881"@ + mark('&', "uploaded"@),
        "&downloaded="@ == mark('&', "downloaded"@),
        "&left="@ == mark('&', "left"@),
        "&compact=1&numwant=100&event="@ == mark('&', "compact"@) + "1"@ + mark('&', "numwant"@)
            + "100"@ + mark('&', "event"@),
{
    reveal_strlit("?info_hash=");
    reveal_strlit("&peer_id=");
    reveal_strlit("&port=6881&uploaded=");
    reveal_strlit("&downloaded=");
    reveal_strlit("&left=");
    reveal_strlit("&compact=1&numwant=100&event=");
    reveal_strlit("info_hash");
    reveal_strlit("peer_id");
    reveal_strlit("port");
    reveal_strlit("6881");
    reveal_strlit("uploaded");
    reveal_strlit("downloaded");
    reveal_strlit("left");
    reveal_strlit("compact");
    reveal_strlit("1");
    reveal_strlit("numwant");
    reveal_strlit("100");
    reveal_strlit("event");
    assert("?info_hash="@ =~= mark('?', "info_hash"@));
    assert("&peer_id="@ =~= mark('&', "peer_id"@));
    assert("&port=6881&uploaded="@ =~= mark('&', "port"@) + "6881"@ + mark('&', "uploaded"@));
    assert("&downloaded="@ =~= mark('&', "downloaded"@));
    assert("&left="@ =~= mark('&', "left"@));
    assert("&compact=1&numwant=100&event="@ =~= mark('&', "compact"@) + "1"@ + mark(
        '&',
        "numwant"@,
    ) + "100"@ + mark('&', "event"@));
}

pub(crate) proof fn lemma_next_parameter(
    url: Seq<char>,
    parameters: Seq<(Seq<char>, Seq<char>)>,
    count: int,
)
    requires
        0 < count <= parameters.len(),
    ensures
        with_parameters(url, parameters.take(count)) == with_parameters(
            url,
            parameters.take(count - 1),
        ) + mark(
            if count == 1 {
                '?'
            } else {
                '&'
            },
            parameters[count - 1].0,
        ) + parameters[count - 1].1,
{
    assert(parameters.take(count).drop_last() =~= parameters.take(count - 1));
    assert(parameters.take(count).last() == parameters[count - 1]);
    let before = with_parameters(url, parameters.take(count - 1));
    let name = parameters[count - 1].0;
    let sign = if count == 1 {
        '?'
    } else {
        '&'
    };
    assert(before.push(sign) + name.push('=') =~= before + mark(sign, name));
}

/// A tracker is told that the torrent is complete when nothing is left and it was not
/// told so before, that it has started when it is asked for the first time, and nothing
/// otherwise.
pub proof fn lemma_what_a_tracker_is_told(tracker: TrackerState, progress: TransferProgress)
    ensures
        progress.left == 0 && !tracker.complete_announced ==> event_of(tracker, progress)
            == "completed"@,
        (progress.left > 0 || tracker.complete_announced) && tracker.last_announce_time is None
            ==> event_of(tracker, progress) == "started"@,
        (progress.left > 0 || tracker.complete_announced) && tracker.last_announce_time is Some
            ==> event_of(tracker, progress) == ""@,
{
    reveal_strlit("");
    if (progress.left > 0 || tracker.complete_announced) && tracker.last_announce_time is Some {
        assert(event_of(tracker, progress) =~= ""@);
    }
}

/// An answer is noted: when it came, how many seconds the tracker wants to be left alone
/// but no more than 120, and that it knows of a complete torrent. Nothing else of the
/// tracker changes.
pub proof fn lemma_answer_is_noted(
    tracker: TrackerState,
    progress: TransferProgress,
    answer: Value,
    now: u128,
)
    ensures
        ({
            let after = tracker_answered(tracker, progress, answer, now);
            &&& after.last_announce_time == Some(now)
            &&& after.complete_announced == (tracker.complete_announced || progress.left == 0)
            &&& match lookup(entries_of(answer), "interval"@) {
                Some(interval) => after.reannounce_rate == Some(
                    if int_of(interval) <= 120 {
                        int_of(interval)
                    } else {
                        120
                    },
                ),
                None => after.reannounce_rate == tracker.reannounce_rate,
            }
            &&& after.url == tracker.url && after.kind == tracker.kind
            &&& after.peer_id == tracker.peer_id && after.connection_id == tracker.connection_id
            &&& after.error_count == tracker.error_count
        }),
{
}

/// A tracker that was never asked is to be asked at once. One that has answered is to be
/// asked again when as many seconds have passed as it wants to be left alone, and not
/// before.
pub proof fn lemma_when_a_tracker_is_asked(tracker: TrackerState, last: u128, rate: u64, now: u128)
    ensures
        tracker.last_announce_time is None ==> is_due(tracker, now) && interval_known(tracker),
        tracker.last_announce_time == Some(last) && tracker.reannounce_rate == Some(rate) ==> (
        is_due(tracker, now) <==> rate == 0 || now >= last + rate * 1_000_000_000),
{
    assert(rate * 1_000_000_000 >= 0);
}

/// A tracker whose URL begins with `udp` is addressed by the name of its host; any other
/// one by its URL. Neither was asked before.
pub proof fn lemma_how_a_tracker_is_addressed(
    url: Seq<char>,
    host: Seq<char>,
    path: Seq<char>,
    peer_id: Seq<char>,
)
    requires
        !host.contains('/'),
    ensures
        url_ok("udp://"@ + host + "/"@ + path),
        url_ok("udp://"@ + host),
        fresh_tracker("udp://"@ + host + "/"@ + path, peer_id).url == host,
        fresh_tracker("udp://"@ + host, peer_id).url == host,
        fresh_tracker("udp://"@ + host, peer_id).kind == TrackerKind::Udp,
        !("udp"@.is_prefix_of(url)) ==> {
            &&& url_ok(url)
            &&& fresh_tracker(url, peer_id).url == url
            &&& fresh_tracker(url, peer_id).kind == TrackerKind::Tcp
        },
        fresh_tracker(url, peer_id).peer_id == peer_id,
        fresh_tracker(url, peer_id).last_announce_time is None,
        fresh_tracker(url, peer_id).reannounce_rate is None,
        !fresh_tracker(url, peer_id).complete_announced,
        client_name().len() == 20,
        forall|i: int| 0 <= i < 20 ==> #[trigger] client_name()[i] == '0',
{
    reveal_strlit("udp://");
    reveal_strlit("/");
    reveal_strlit("udp");
    let long = "udp://"@ + host + "/"@ + path;
    let short = "udp://"@ + host;
    reveal_with_fuel(slash_from, 8);
    assert(slash_from(long, 0) == Some(4int));
    assert(slash_from(long, 5) == Some(5int));
    assert(slash_from(short, 0) == Some(4int));
    assert(slash_from(short, 5) == Some(5int));
    assert forall|i: int| 6 <= i < 6 + host.len() implies long[i] != '/' && short[i] != '/' by {
        assert(long[i] == host[i - 6] && short[i] == host[i - 6]);
        assert(host.contains(host[i - 6]));
    }
    lemma_no_slash_before(long, 6, 6 + host.len() as int);
    lemma_no_slash_before(short, 6, 6 + host.len() as int);
    assert(long[6 + host.len() as int] == '/');
    assert(slash_from(long, 6) == Some(6 + host.len() as int));
    assert(long.subrange(6, 6 + host.len() as int) =~= host);
    assert(short.subrange(6, short.len() as int) =~= host);
    if url.len() >= 3 && url[0] == 'u' && url[1] == 'd' && url[2] == 'p' {
        assert(url.subrange(0, 3) =~= "udp"@);
    }
}

proof fn lemma_no_slash_before(text: Seq<char>, from: int, to: int)
    requires
        0 <= from <= to <= text.len(),
        forall|i: int| from <= i < to ==> #[trigger] text[i] != '/',
    ensures
        slash_from(text, from) == slash_from(text, to),
    decreases to - from,
{
    if from < to {
        lemma_no_slash_before(text, from + 1, to);
    }
}

/// Addresses are ordered by their version, then by the internet address, then by the
/// port.
pub proof fn lemma_order_of_addresses(a: u32, b: u32, c: u128, d: u128, p: u16, q: u16)
    ensures
        (PeerAddress::V4 { ip: a, port: p }).less(PeerAddress::V4 { ip: b, port: q }) <==> 65536 * a
            + p < 65536 * b + q,
        (PeerAddress::V6 { ip: c, port: p }).less(PeerAddress::V6 { ip: d, port: q }) <==> 65536 * c
            + p < 65536 * d + q,
        (PeerAddress::V4 { ip: a, port: p }).less(PeerAddress::V6 { ip: c, port: q }),
        !(PeerAddress::V6 { ip: c, port: q }).less(PeerAddress::V4 { ip: a, port: p }),
{
}

/// An answer is refused just where its body holds no dictionary behind its first byte,
/// or where its addresses are not whole.
pub proof fn lemma_which_answers_are_taken(body: Seq<u8>)
    ensures
        answer_of(body) is Some <==> (dictionary_at(body, 1) matches Some((answer, end)) && (
        lookup(entries_of(answer), "peers"@) matches Some(peers) ==> bytes_of(peers).len() % 6
            == 0) && (lookup(entries_of(answer), "peers6"@) matches Some(peers) ==> bytes_of(
            peers,
        ).len() % 18 == 0)),
        answer_of(body) is Some ==> Some(answer_of(body).unwrap()) == (match dictionary_at(
            body,
            1,
        ) {
            Some((answer, end)) => Some(answer),
            None => None,
        }),
{
}

/// The trackers of a torrent are the one that it names first, and those of its list that
/// are not empty.
pub proof fn lemma_which_trackers(torrent: TorrentValue, url: Seq<char>)
    ensures
        is_tracker(torrent, torrent.announce),
        forall|i: int|
            0 <= i < torrent.announce_list.len() && torrent.announce_list[i].len() > 0
                ==> is_tracker(torrent, #[trigger] torrent.announce_list[i]),
        is_tracker(torrent, url) && url != torrent.announce ==> url.len() > 0 && (exists|i: int|
            0 <= i < torrent.announce_list.len() && #[trigger] torrent.announce_list[i] == url),
{
}

/// A tracker that is reached by datagrams has a host behind two slashes, or cannot be
/// addressed.
pub proof fn lemma_tracker_without_a_host(url: Seq<char>, first: int)
    requires
        "udp"@.is_prefix_of(url),
        forall|i: int| 0 <= i < url.len() && i != first ==> #[trigger] url[i] != '/',
    ensures
        !url_ok(url),
{
    reveal_strlit("udp");
    assert(url.subrange(0, 3)[0] == url[0] && url.subrange(0, 3)[1] == url[1] && url.subrange(
        0,
        3,
    )[2] == url[2]);
    let end = url.len() as int;
    if 0 <= first < end {
        lemma_no_slash_before(url, 0, first);
        lemma_no_slash_before(url, first + 1, end);
        if url[first] != '/' {
            lemma_no_slash_before(url, 0, end);
        }
    } else {
        lemma_no_slash_before(url, 0, end);
    }
}

} // verus!
