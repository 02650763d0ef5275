//! How the trackers of the shared client are asked, and what is made of their answers.
use vstd::prelude::*;

use crate::address::PeerAddress;
use crate::client::tracker::{
    TcpTrackerState, TrackerEvent, answer_of, asked, client_name, countable, event_text,
    is_skipped, is_udp, new_tracker, query_of, tracker_answered,
};
use crate::dictionary::lookup;
use crate::laws::answers::{
    Tree, entries_plain_at, is_ascii, keys_ascii, lemma_dictionary_by_key, lemma_value_is_read,
    meaning, named, plain_at, text_written, written,
};
use crate::laws::engine::picked;
use crate::laws::trackers::{
    all_written, lemma_addresses_v4_are_read_back, lemma_addresses_v4_are_the_bytes,
    lemma_next_parameter, mark, with_parameters,
};
use crate::parser::{Value, bytes_of, dictionary_at, entries_of, int_of};
use crate::text::decimal;
use crate::url::url_encoded;

verus! {

/// The parameter by which a tracker is told what happened, where anything did.
pub open spec fn event_parameter(event: TrackerEvent) -> Seq<(Seq<char>, Seq<char>)> {
    match event {
        TrackerEvent::Started => seq![("event"@, "started"@)],
        TrackerEvent::Stopped => seq![("event"@, "stopped"@)],
        TrackerEvent::Completed => seq![("event"@, "completed"@)],
        TrackerEvent::PeriodicRequest => seq![],
    }
}

/// A tracker is told which torrent is meant, who asks, at which port the client listens,
/// that nothing was uploaded, how much was downloaded and how much is left, and what
/// happened. What is left are the missing pieces, and what was downloaded the others.
pub proof fn lemma_what_a_tracker_is_asked(
    tracker: TcpTrackerState,
    info_hash: Seq<u8>,
    piece_length: usize,
    pieces: usize,
    missing: usize,
    event: TrackerEvent,
)
    requires
        missing <= pieces,
        countable(piece_length, pieces),
    ensures
        query_of(tracker, info_hash, piece_length, pieces, missing, event) == with_parameters(
            tracker.tracker_url,
            seq![
                ("info_hash"@, url_encoded(info_hash)),
                ("peer_id"@, tracker.client_id),
                ("port"@, "6881"@),
                ("uploaded"@, "0"@),
                ("downloaded"@, decimal((piece_length * (pieces - missing)) as nat)),
                ("left"@, decimal((piece_length * missing) as nat)),
                ("compact"@, "1"@),
            ] + event_parameter(event),
        ),
{
    let left = (piece_length * missing) as nat;
    let downloaded = (piece_length * (pieces - missing)) as nat;
    assert(piece_length * pieces - piece_length * missing == piece_length * (pieces - missing))
        by (nonlinear_arith);
    let first = seq![
        ("info_hash"@, url_encoded(info_hash)),
        ("peer_id"@, tracker.client_id),
        ("port"@, "6881"@),
        ("uploaded"@, "0"@),
        ("downloaded"@, decimal(downloaded)),
        ("left"@, decimal(left)),
        ("compact"@, "1"@),
    ];
    let all = first + event_parameter(event);
    let url = tracker.tracker_url;
    lemma_marks();
    assert(all.take(0) =~= Seq::empty());
    let a = url + "?info_hash="@ + url_encoded(info_hash);
    lemma_next_parameter(url, all, 1);
    assert(with_parameters(url, all.take(1)) == a);
    let b = a + "&peer_id="@ + tracker.client_id;
    lemma_next_parameter(url, all, 2);
    assert(with_parameters(url, all.take(2)) == b);
    let c = b + "&port=6881&uploaded=0&downloaded="@ + decimal(downloaded);
    lemma_next_parameter(url, all, 3);
    lemma_next_parameter(url, all, 4);
    lemma_next_parameter(url, all, 5);
    assert(with_parameters(url, all.take(5)) == c) by {
        let one = b + mark('&', "port"@) + "6881"@;
        let two = one + mark('&', "uploaded"@) + "0"@;
        assert(two + mark('&', "downloaded"@) =~= b + "&port=6881&uploaded=0&downloaded="@);
    }
    let d = c + "&left="@ + decimal(left);
    lemma_next_parameter(url, all, 6);
    assert(with_parameters(url, all.take(6)) == d);
    let e = d + "&compact=1"@;
    lemma_next_parameter(url, all, 7);
    assert(with_parameters(url, all.take(7)) == e) by {
        assert(d + mark('&', "compact"@) + "1"@ =~= d + "&compact=1"@);
    }
    if event is PeriodicRequest {
        assert(all.take(7) =~= all);
        assert(e + event_text(event) =~= e);
    } else {
        lemma_next_parameter(url, all, 8);
        assert(all.take(8) =~= all);
        lemma_event_text(event);
        let (name, value) = event_parameter(event)[0];
        assert(all[7] == event_parameter(event)[0]);
        assert(e + event_text(event) =~= e + mark('&', name) + value);
    }
}

proof fn lemma_marks()
    ensures
        "?info_hash="@ == mark('?', "info_hash"@),
        "&peer_id="@ == mark('&', "peer_id"@),
        "&port=6881&uploaded=0&downloaded="@ == mark('&', "port"@) + "6881"@ + mark(
            '&',
            "uploaded"@,
        ) + "0"@ + mark('&', "downloaded"@),
        "&left="@ == mark('&', "left"@),
        "&compact=1"@ == mark('&', "compact"@) + "1"@,
{
    reveal_strlit("?info_hash=");
    reveal_strlit("&peer_id=");
    reveal_strlit("&port=6881&uploaded=0&downloaded=");
    reveal_strlit("&left=");
    reveal_strlit("&compact=1");
    reveal_strlit("info_hash");
    reveal_strlit("peer_id");
    reveal_strlit("port");
    reveal_strlit("6881");
    reveal_strlit("uploaded");
    reveal_strlit("0");
    reveal_strlit("downloaded");
    reveal_strlit("left");
    reveal_strlit("compact");
    reveal_strlit("1");
    assert("?info_hash="@ =~= mark('?', "info_hash"@));
    assert("&peer_id="@ =~= mark('&', "peer_id"@));
    assert("&port=6881&uploaded=0&downloaded="@ =~= mark('&', "port"@) + "6881"@ + mark(
        '&',
        "uploaded"@,
    ) + "0"@ + mark('&', "downloaded"@));
    assert("&left="@ =~= mark('&', "left"@));
    assert("&compact=1"@ =~= mark('&', "compact"@) + "1"@);
}

proof fn lemma_event_text(event: TrackerEvent)
    requires
        !(event is PeriodicRequest),
    ensures
        event_text(event) == mark('&', event_parameter(event)[0].0) + event_parameter(event)[0].1,
{
    reveal_strlit("event");
    reveal_strlit("started");
    reveal_strlit("stopped");
    reveal_strlit("completed");
    reveal_strlit("&event=started");
    reveal_strlit("&event=stopped");
    reveal_strlit("&event=completed");
    assert(event_text(event) =~= mark('&', event_parameter(event)[0].0)
        + event_parameter(event)[0].1);
}

/// A tracker is new when it has not answered, has no peers and is to be left alone for
/// 20 seconds.
pub proof fn lemma_new_tracker(client_id: Seq<char>, url: Seq<char>, now: u128)
    ensures
        ({
            let tracker = new_tracker(client_id, url, now);
            &&& tracker.client_id == client_id && tracker.tracker_url == url
            &&& tracker.peers_list.len() == 0 && !tracker.announced
            &&& tracker.announce_interval == 20 && tracker.last_message_time == now
        }),
        client_name().len() == 20,
        forall|i: int| 0 <= i < 20 ==> #[trigger] client_name()[i] == 'r',
{
}

/// A tracker is passed over just where it has answered before, nothing happened, and as
/// many seconds have passed as it named.
pub proof fn lemma_when_a_tracker_is_passed_over(
    tracker: TcpTrackerState,
    event: TrackerEvent,
    now: u128,
)
    requires
        tracker.last_message_time <= now,
    ensures
        is_skipped(tracker, event, now) <==> (event is PeriodicRequest && tracker.announced && now
            >= tracker.last_message_time + 1_000_000_000 * tracker.announce_interval),
{
}

/// An answer is noted: its peers and the time that it names, each where it has them, and
/// that the tracker has answered. Nothing else of the tracker changes.
pub proof fn lemma_answer_is_noted(tracker: TcpTrackerState, answer: Value)
    ensures
        ({
            let after = tracker_answered(tracker, answer);
            &&& after.announced
            &&& lookup(entries_of(answer), "peers"@) is None ==> after.peers_list
                == tracker.peers_list
            &&& match lookup(entries_of(answer), "interval"@) {
                Some(interval) => after.announce_interval == int_of(interval),
                None => after.announce_interval == tracker.announce_interval,
            }
            &&& after.client_id == tracker.client_id && after.tracker_url == tracker.tracker_url
            &&& after.last_message_time == tracker.last_message_time
        }),
{
}

/// A tracker that answers with a time and with addresses is understood: its peers are
/// those that it wrote, and its time is the one that it named.
pub proof fn lemma_answer_is_understood(
    tracker: TcpTrackerState,
    interval: u64,
    addresses: Seq<PeerAddress>,
    rest: Seq<u8>,
)
    requires
        forall|i: int| 0 <= i < addresses.len() ==> (#[trigger] addresses[i]) is V4,
        all_written(addresses).len() <= usize::MAX,
    ensures
        ({
            let tree = Tree::Dictionary(
                named(
                    seq![
                        ("interval"@, Tree::Int(interval)),
                        ("peers"@, Tree::Text(all_written(addresses))),
                    ],
                ),
            );
            answer_of(written(tree) + rest) matches Some(answer) && {
                &&& tracker_answered(tracker, answer).peers_list == addresses
                &&& tracker_answered(tracker, answer).announce_interval == interval
            }
        }),
{
    let bytes = all_written(addresses);
    let fields = seq![("interval"@, Tree::Int(interval)), ("peers"@, Tree::Text(bytes))];
    let tree = Tree::Dictionary(named(fields));
    let body = written(tree) + rest;
    reveal_strlit("interval");
    reveal_strlit("peers");
    assert("interval"@.len() == 8 && "peers"@.len() == 5);
    assert(is_ascii("interval"@) && is_ascii("peers"@));
    assert(keys_ascii(fields));
    lemma_plain_answer(fields);
    lemma_value_is_read(Seq::empty(), tree, rest);
    assert(Seq::<u8>::empty() + written(tree) + rest =~= body);
    assert(body[0] == 100);
    assert(dictionary_at(body, 1) == Some((meaning(tree), written(tree).len() as int)));
    lemma_dictionary_by_key(fields, "interval"@, 0);
    lemma_dictionary_by_key(fields, "peers"@, 1);
    lemma_addresses_v4_are_read_back(addresses);
}

proof fn lemma_plain_answer(fields: Seq<(Seq<char>, Tree)>)
    requires
        fields.len() == 2,
        fields[0].0.len() == 8,
        fields[1].0.len() == 5,
        fields[0].1 is Int,
        fields[1].1 matches Tree::Text(bytes) && bytes.len() <= usize::MAX,
    ensures
        plain_at(Tree::Dictionary(named(fields)), 0),
{
    let entries = named(fields);
    let others = entries.skip(1);
    let at = 1 + text_written(entries[0].0).len() as int;
    let next = at + written(entries[0].1).len();
    let end = next + text_written(others[0].0).len();
    assert(others[0] == entries[1]);
    assert(others.skip(1).len() == 0);
    assert(plain_at(entries[0].1, at));
    assert(plain_at(others[0].1, end));
    assert(entries_plain_at(others.skip(1), end + written(others[0].1).len()));
    assert(entries_plain_at(others, next));
    assert(entries_plain_at(entries, 1));
}

/// The trackers that are asked are those that are not reached by datagrams, in order.
pub proof fn lemma_which_trackers_are_asked(urls: Seq<Seq<char>>)
    ensures
        exists|from: Seq<int>| #[trigger]
            picked(urls, asked(urls), from) && forall|i: int|
                0 <= i < urls.len() ==> (from.contains(i) <==> !"udp:"@.is_prefix_of(
                    #[trigger] urls[i],
                )),
{
    let from = lemma_asked_places(urls);
    assert(picked(urls, asked(urls), from));
}

proof fn lemma_udp(url: Seq<char>)
    ensures
        is_udp(url) <==> "udp:"@.is_prefix_of(url),
{
    reveal_strlit("udp:");
    if is_udp(url) {
        assert(url.subrange(0, 4) =~= "udp:"@);
    }
    if "udp:"@.is_prefix_of(url) {
        assert(url.subrange(0, 4)[0] == url[0] && url.subrange(0, 4)[1] == url[1] && url.subrange(
            0,
            4,
        )[2] == url[2] && url.subrange(0, 4)[3] == url[3]);
    }
}

proof fn lemma_asked_places(urls: Seq<Seq<char>>) -> (from: Seq<int>)
    ensures
        picked(urls, asked(urls), from),
        forall|i: int|
            0 <= i < urls.len() ==> (from.contains(i) <==> !"udp:"@.is_prefix_of(
                #[trigger] urls[i],
            )),
    decreases urls.len(),
{
    if urls.len() == 0 {
        Seq::empty()
    } else {
        let before = lemma_asked_places(urls.drop_last());
        let last = urls.len() - 1;
        lemma_udp(urls.last());
        let from = if is_udp(urls.last()) {
            before
        } else {
            before.push(last)
        };
        assert forall|i: int| 0 <= i < urls.len() implies (from.contains(i)
            <==> !"udp:"@.is_prefix_of(#[trigger] urls[i])) by {
            if i < last {
                assert(urls.drop_last()[i] == urls[i]);
            } else if !is_udp(urls.last()) {
                assert(from[before.len() as int] == last);
            }
            if before.contains(i) {
                let k = choose|k: int| 0 <= k < before.len() && before[k] == i;
                assert(from[k] == i);
            }
            if from.contains(i) {
                let k = choose|k: int| 0 <= k < from.len() && from[k] == i;
                if k < before.len() {
                    assert(before[k] == i);
                }
            }
        }
        from
    }
}

/// An answer is refused just where its body holds no dictionary behind its first byte,
/// or where its addresses are not whole. Its peers, written as trackers write them, are
/// what it holds under `peers`.
pub proof fn lemma_which_answers_are_taken(tracker: TcpTrackerState, body: Seq<u8>)
    ensures
        answer_of(body) is Some <==> (dictionary_at(body, 1) matches Some((answer, end)) && (
        lookup(entries_of(answer), "peers"@) matches Some(peers) ==> bytes_of(peers).len() % 6
            == 0)),
        answer_of(body) matches Some(answer) ==> (lookup(
            entries_of(answer),
            "peers"@,
        ) matches Some(peers) ==> all_written(tracker_answered(tracker, answer).peers_list)
            == bytes_of(peers)),
{
    if let Some(answer) = answer_of(body) {
        if let Some(peers) = lookup(entries_of(answer), "peers"@) {
            lemma_addresses_v4_are_the_bytes(bytes_of(peers));
        }
    }
}

/// What is downloaded and left can be told where all pieces together can be counted.
pub proof fn lemma_what_can_be_told(piece_length: usize, pieces: usize)
    ensures
        countable(piece_length, pieces) <==> piece_length * pieces <= usize::MAX,
{
}

} // verus!
