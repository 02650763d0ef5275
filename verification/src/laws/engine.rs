//! How the engine deals with its peers and gives out pieces.
use vstd::prelude::*;

use crate::address::PeerAddress;
use crate::engine::peer::state::{CommandValue, PeerStatus};
use crate::engine::transfer::{
    TransferPiece, TransferState, assigned, first_suiting, free, piece_readable, piece_spans,
    search_ok, suits, transfer_ok,
};
use crate::engine::{
    ControlValue, EngineState, StatusNews, TaskValue, engine_ok, first_holder, first_holding,
    fresh_control, give, has_left, has_peer, holds_piece, kept, left_behind, lemma_give,
    new_peers, news_status, purged, released, served, taken, with_peers, without_piece,
};
use crate::hashing::sha1_of;

verus! {

/// The peer can still be reached: its channel is open, and it was not heard to be gone.
pub open spec fn reachable(control: ControlValue, closed: bool) -> bool {
    !closed && control.status != PeerStatus::Disconnected
}

/// The items of `after` are those of `before` at the places `from`, which ascend.
pub open spec fn picked<A>(before: Seq<A>, after: Seq<A>, from: Seq<int>) -> bool {
    &&& from.len() == after.len()
    &&& forall|k: int|
        0 <= k < from.len() ==> 0 <= #[trigger] from[k] < before.len() && after[k]
            == before[from[k]]
    &&& forall|k: int, m: int| 0 <= k < m < from.len() ==> #[trigger] from[k] < #[trigger] from[m]
}

/// A purge keeps every peer that can be reached, and no other, unchanged and in order.
pub proof fn lemma_purge_keeps_who_can_be_reached(state: EngineState, closed: Seq<bool>)
    requires
        closed.len() == state.controls.len(),
    ensures
        exists|from: Seq<int>| #[trigger]
            picked(state.controls, purged(state, closed).controls, from) && forall|i: int|
                0 <= i < state.controls.len() ==> (from.contains(i) <==> #[trigger] reachable(
                    state.controls[i],
                    closed[i],
                )),
{
    let from = lemma_kept_places(state.controls, closed, state.controls.len() as int);
    assert(picked(state.controls, purged(state, closed).controls, from));
}

proof fn lemma_kept_places(
    controls: Seq<ControlValue>,
    closed: Seq<bool>,
    count: int,
) -> (from: Seq<int>)
    requires
        0 <= count <= controls.len(),
    ensures
        picked(controls, kept(controls, closed, count), from),
        forall|k: int| 0 <= k < from.len() ==> #[trigger] from[k] < count,
        forall|i: int|
            0 <= i < count ==> (from.contains(i) <==> #[trigger] reachable(
                controls[i],
                closed[i],
            )),
    decreases count,
{
    if count == 0 {
        Seq::empty()
    } else {
        let before = lemma_kept_places(controls, closed, count - 1);
        let last = count - 1;
        let from = if reachable(controls[last], closed[last]) {
            before.push(last)
        } else {
            before
        };
        assert forall|i: int| 0 <= i < count implies (from.contains(i) <==> #[trigger] reachable(
            controls[i],
            closed[i],
        )) by {
            if i < last {
                if before.contains(i) {
                    let k = choose|k: int| 0 <= k < before.len() && before[k] == i;
                    assert(from[k] == i);
                }
                if from.contains(i) {
                    let k = choose|k: int| 0 <= k < from.len() && from[k] == i;
                    assert(before[k] == i);
                }
            } else if reachable(controls[i], closed[i]) {
                assert(from[before.len() as int] == last);
            } else if from.contains(i) {
                let k = choose|k: int| 0 <= k < from.len() && from[k] == i;
                assert(before[k] == i);
            }
        }
        from
    }
}

/// A purge frees the pieces of the peers that cannot be reached and leaves every other
/// piece as it is, those of the peers that stay among them. Nothing else of the torrent
/// changes.
pub proof fn lemma_purge_frees_what_is_left_behind(state: EngineState, closed: Seq<bool>)
    requires
        engine_ok(state),
        closed.len() == state.controls.len(),
    ensures
        ({
            let after = purged(state, closed);
            &&& forall|i: int, k: int|
                0 <= i < state.controls.len() && !reachable(state.controls[i], closed[i]) && 0 <= k
                    < state.controls[i].assigned_pieces.len()
                    ==> after.transfer.pieces[(#[trigger] state.controls[i].assigned_pieces[k]).0 as int].assigned_to
                    is None
            &&& forall|m: int|
                0 <= m < state.transfer.pieces.len() && (forall|i: int, k: int|
                    0 <= i < state.controls.len() && 0 <= k
                        < state.controls[i].assigned_pieces.len() && (
                    #[trigger] state.controls[i].assigned_pieces[k]).0 == m ==> reachable(
                        state.controls[i],
                        closed[i],
                    )) ==> #[trigger] after.transfer.pieces[m] == state.transfer.pieces[m]
            &&& forall|m: int|
                0 <= m < state.transfer.pieces.len() ==> {
                    let piece = #[trigger] after.transfer.pieces[m];
                    &&& piece.completed == state.transfer.pieces[m].completed
                    &&& piece.idx == state.transfer.pieces[m].idx
                    &&& piece.length == state.transfer.pieces[m].length
                    &&& piece.start_file == state.transfer.pieces[m].start_file
                    &&& piece.start_position == state.transfer.pieces[m].start_position
                }
            &&& after.transfer.pieces.len() == state.transfer.pieces.len()
            &&& after.transfer.left == state.transfer.left
            &&& after.transfer.torrent == state.transfer.torrent
            &&& after.complete == state.complete
        }),
{
    let after = purged(state, closed);
    let count = state.controls.len() as int;
    assert forall|i: int, k: int|
        0 <= i < state.controls.len() && !reachable(state.controls[i], closed[i]) && 0 <= k
            < state.controls[i].assigned_pieces.len() implies after.transfer.pieces[(
    #[trigger] state.controls[i].assigned_pieces[k]).0 as int].assigned_to is None by {
        let piece = state.controls[i].assigned_pieces[k].0;
        assert(holds_piece(state.controls[i].assigned_pieces, piece));
        assert(has_left(state.controls[i], closed[i]));
        assert(left_behind(state.controls, closed, count, piece));
    }
    assert forall|m: int|
        0 <= m < state.transfer.pieces.len() && (forall|i: int, k: int|
            0 <= i < state.controls.len() && 0 <= k < state.controls[i].assigned_pieces.len() && (
            #[trigger] state.controls[i].assigned_pieces[k]).0 == m ==> reachable(
                state.controls[i],
                closed[i],
            )) implies #[trigger] after.transfer.pieces[m] == state.transfer.pieces[m] by {
        if left_behind(state.controls, closed, count, m as usize) {
            let i = choose|i: int|
                0 <= i < count && has_left(#[trigger] state.controls[i], closed[i]) && holds_piece(
                    state.controls[i].assigned_pieces,
                    m as usize,
                );
            let list = state.controls[i].assigned_pieces;
            let k = choose|k: int| 0 <= k < list.len() && (#[trigger] list[k]).0 == m as usize;
            assert(state.controls[i].assigned_pieces[k].0 < state.transfer.pieces.len());
            if m <= usize::MAX {
                assert(state.controls[i].assigned_pieces[k].0 == m);
            } else {
                assert(state.transfer.pieces[m].idx == m);
            }
        }
    }
}

/// The pieces that a peer is given are the first ones that it has, that are not complete
/// and that no peer is to bring, in ascending order, each with its own length. There are
/// fewer than asked for only where there are no more such pieces. The torrent changes in
/// nothing but whose they are.
pub proof fn lemma_first_pieces_are_given(
    transfer: TransferState,
    available: Seq<bool>,
    address: PeerAddress,
    count: nat,
)
    requires
        transfer_ok(transfer),
        give(transfer, available, address, count) is Some,
    ensures
        ({
            let (after, list) = give(transfer, available, address, count).unwrap();
            &&& list.len() <= count
            &&& forall|k: int|
                0 <= k < list.len() ==> {
                    let (piece, length) = #[trigger] list[k];
                    &&& piece < transfer.pieces.len()
                    &&& length == transfer.pieces[piece as int].length
                    &&& piece < available.len() && available[piece as int]
                    &&& !transfer.pieces[piece as int].completed
                    &&& transfer.pieces[piece as int].assigned_to is None
                    &&& after.pieces[piece as int] == (TransferPiece {
                        assigned_to: Some(address),
                        ..transfer.pieces[piece as int]
                    })
                }
            &&& forall|k: int, m: int|
                0 <= k < m < list.len() ==> (#[trigger] list[k]).0 < (#[trigger] list[m]).0
            &&& forall|p: int|
                0 <= p < transfer.pieces.len() && !holds_piece(list, p as usize) ==> {
                    &&& #[trigger] after.pieces[p] == transfer.pieces[p]
                    &&& p < available.len() && available[p] && !transfer.pieces[p].completed
                        && transfer.pieces[p].assigned_to is None ==> list.len() == count && (
                    forall|k: int| 0 <= k < list.len() ==> (#[trigger] list[k]).0 < p)
                }
            &&& after == (TransferState { pieces: after.pieces, ..transfer })
            &&& after.pieces.len() == transfer.pieces.len()
        }),
    decreases count,
{
    let (after, list) = give(transfer, available, address, count).unwrap();
    lemma_give(transfer, available, address, count);
    assert forall|p: int| 0 <= p < transfer.pieces.len() implies (#[trigger] transfer.pieces[p]).idx
        == p by {}
    if count > 0 && available.len() > 0 && search_ok(transfer.pieces, available) && (exists|i: int|
        first_suiting(transfer.pieces, available, i)) {
        let i = choose|i: int| first_suiting(transfer.pieces, available, i);
        let piece = transfer.pieces[i];
        let middle = assigned(transfer, i, address);
        lemma_first_pieces_are_given(middle, available, address, (count - 1) as nat);
        lemma_give(middle, available, address, (count - 1) as nat);
        let (same, rest) = give(middle, available, address, (count - 1) as nat).unwrap();
        assert(list =~= seq![(piece.idx, piece.length as u64)] + rest);
        assert(suits(transfer.pieces, available, i));
        assert(list[0].0 == i);
        assert forall|k: int| 0 <= k < rest.len() implies (#[trigger] rest[k]).0 > i by {
            let p = rest[k].0 as int;
            assert(free(middle.pieces[p]));
            assert(p != i);
            if p < i {
                assert(!suits(transfer.pieces, available, p));
                assert(transfer.pieces[p].idx == p);
            }
        }
        assert(!holds_piece(rest, i as usize));
        assert forall|k: int| 0 <= k < list.len() implies {
            let (piece, length) = #[trigger] list[k];
            &&& length == transfer.pieces[piece as int].length
            &&& after.pieces[piece as int] == (TransferPiece {
                assigned_to: Some(address),
                ..transfer.pieces[piece as int]
            })
        } by {
            if k > 0 {
                assert(list[k] == rest[k - 1]);
            } else {
                assert(after.pieces[i] == middle.pieces[i]);
            }
        }
        assert forall|k: int, m: int| 0 <= k < m < list.len() implies (#[trigger] list[k]).0 < (
        #[trigger] list[m]).0 by {
            assert(list[m] == rest[m - 1]);
            if k > 0 {
                assert(list[k] == rest[k - 1]);
            }
        }
        assert forall|p: int|
            0 <= p < transfer.pieces.len() && !holds_piece(list, p as usize) && p < available.len()
                && available[p] && !(#[trigger] transfer.pieces[p]).completed
                && transfer.pieces[p].assigned_to is None implies list.len() == count && (forall|
            k: int,
        |
            0 <= k < list.len() ==> (#[trigger] list[k]).0 < p) by {
            assert(p != i);
            if holds_piece(rest, p as usize) {
                let k = choose|k: int| 0 <= k < rest.len() && (#[trigger] rest[k]).0 == p as usize;
                assert(list[k + 1].0 == p as usize);
            }
            assert(middle.pieces[p] == transfer.pieces[p]);
            assert(same.pieces[p] == middle.pieces[p]);
            if p < i {
                assert(suits(transfer.pieces, available, p));
            }
            assert forall|k: int| 0 <= k < list.len() implies (#[trigger] list[k]).0 < p by {
                if k > 0 {
                    assert(list[k] == rest[k - 1]);
                }
            }
        }
    } else if count > 0 {
        assert forall|p: int|
            0 <= p < transfer.pieces.len() implies !(p < available.len() && available[p] && !(
        #[trigger] transfer.pieces[p]).completed && transfer.pieces[p].assigned_to is None) by {
            if p < available.len() && available[p] && !transfer.pieces[p].completed
                && transfer.pieces[p].assigned_to is None {
                lemma_some_piece_is_first(transfer.pieces, available, p);
            }
        }
    }
}

proof fn lemma_some_piece_is_first(pieces: Seq<TransferPiece>, available: Seq<bool>, p: int)
    requires
        0 <= p < pieces.len(),
        suits(pieces, available, p),
    ensures
        exists|i: int| first_suiting(pieces, available, i),
    decreases p,
{
    if exists|q: int| 0 <= q < p && suits(pieces, available, q) {
        let q = choose|q: int| 0 <= q < p && suits(pieces, available, q);
        lemma_some_piece_is_first(pieces, available, q);
    } else {
        assert(first_suiting(pieces, available, p));
    }
}

/// A peer that says of every piece whether it has it can always be given pieces.
pub proof fn lemma_giving_succeeds(
    transfer: TransferState,
    available: Seq<bool>,
    address: PeerAddress,
    count: nat,
)
    requires
        transfer_ok(transfer),
        transfer.pieces.len() <= available.len(),
    ensures
        give(transfer, available, address, count) is Some,
    decreases count,
{
    if count > 0 && available.len() > 0 {
        assert(search_ok(transfer.pieces, available));
        if exists|i: int| first_suiting(transfer.pieces, available, i) {
            let i = choose|i: int| first_suiting(transfer.pieces, available, i);
            lemma_giving_succeeds(
                assigned(transfer, i, address),
                available,
                address,
                (count - 1) as nat,
            );
        }
    }
}

/// There is a piece that the peer has, that is not complete and that no peer is to bring.
pub open spec fn has_something_to_give(transfer: TransferState, available: Seq<bool>) -> bool {
    exists|p: int|
        0 <= p < transfer.pieces.len() && p < available.len() && available[p] && !(
        #[trigger] transfer.pieces[p]).completed && transfer.pieces[p].assigned_to is None
}

proof fn lemma_something_to_give(transfer: TransferState, available: Seq<bool>)
    requires
        transfer_ok(transfer),
    ensures
        has_something_to_give(transfer, available) <==> exists|i: int|
            first_suiting(transfer.pieces, available, i),
{
    if has_something_to_give(transfer, available) {
        let p = choose|p: int|
            0 <= p < transfer.pieces.len() && p < available.len() && available[p] && !(
            #[trigger] transfer.pieces[p]).completed && transfer.pieces[p].assigned_to is None;
        assert(transfer.pieces[p].idx == p);
        lemma_some_piece_is_first(transfer.pieces, available, p);
    }
    if exists|i: int| first_suiting(transfer.pieces, available, i) {
        let i = choose|i: int| first_suiting(transfer.pieces, available, i);
        assert(transfer.pieces[i].idx == i);
    }
}

/// What the engine does for a peer that says of every piece whether it has it. Interest
/// is shown in one that has just connected, and pieces are asked of one that is ready,
/// just where it has something to give: up to five, each with its own length, and they
/// are noted for it. A piece that it wants is read for it. Otherwise nothing changes.
pub proof fn lemma_what_a_peer_is_told(state: EngineState, i: int)
    requires
        engine_ok(state),
        0 <= i < state.controls.len(),
        state.transfer.pieces.len() <= state.controls[i].available_pieces.len(),
    ensures
        ({
            let control = state.controls[i];
            let wanted = has_something_to_give(state.transfer, control.available_pieces);
            match control.status {
                PeerStatus::ConnectionEstablished => served(state, i) == Some(
                    (
                        state,
                        if wanted {
                            TaskValue::Command(CommandValue::SendInterested)
                        } else {
                            TaskValue::Rest
                        },
                    ),
                ),
                PeerStatus::Ready => if wanted {
                    served(state, i) matches Some(
                        (after, TaskValue::Command(CommandValue::RequestPiece { pieces })),
                    ) && {
                        &&& 1 <= pieces.len() <= 5
                        &&& after.controls == state.controls.update(
                            i,
                            ControlValue { assigned_pieces: pieces, ..control },
                        )
                        &&& after.complete == state.complete
                        &&& forall|k: int|
                            0 <= k < pieces.len() ==> (#[trigger] pieces[k]).0
                                < state.transfer.pieces.len() && pieces[k].1
                                == state.transfer.pieces[pieces[k].0 as int].length
                        &&& forall|p: int|
                            0 <= p < state.transfer.pieces.len() ==> (if holds_piece(
                                pieces,
                                p as usize,
                            ) {
                                #[trigger] after.transfer.pieces[p] == (TransferPiece {
                                    assigned_to: Some(control.address),
                                    ..state.transfer.pieces[p]
                                })
                            } else {
                                after.transfer.pieces[p] == state.transfer.pieces[p]
                            })
                    }
                } else {
                    served(state, i) == Some((state, TaskValue::Rest))
                },
                PeerStatus::RequestedPiece(piece) => if piece < state.transfer.pieces.len()
                    && piece_readable(state.transfer, piece as int) {
                    served(state, i) == Some(
                        (
                            state,
                            TaskValue::SendPiece(piece, piece_spans(state.transfer, piece as int)),
                        ),
                    )
                } else {
                    served(state, i) is None
                },
                _ => served(state, i) == Some((state, TaskValue::Rest)),
            }
        }),
{
    let control = state.controls[i];
    lemma_something_to_give(state.transfer, control.available_pieces);
    lemma_giving_succeeds(state.transfer, control.available_pieces, control.address, 5);
    lemma_first_pieces_are_given(
        state.transfer,
        control.available_pieces,
        control.address,
        5,
    );
    assert(search_ok(state.transfer.pieces, control.available_pieces));
    let (transfer, pieces) = give(
        state.transfer,
        control.available_pieces,
        control.address,
        5,
    ).unwrap();
    if control.status is Ready {
        let wanted = has_something_to_give(state.transfer, control.available_pieces);
        if wanted {
            let p = choose|p: int|
                0 <= p < state.transfer.pieces.len() && p < control.available_pieces.len()
                    && control.available_pieces[p] && !(
                #[trigger] state.transfer.pieces[p]).completed
                    && state.transfer.pieces[p].assigned_to is None;
            if pieces.len() == 0 {
                assert(!holds_piece(pieces, p as usize));
                assert(transfer.pieces[p] == state.transfer.pieces[p]);
            }
            assert forall|p: int|
                0 <= p < state.transfer.pieces.len() && holds_piece(
                    pieces,
                    p as usize,
                ) implies #[trigger] transfer.pieces[p] == (TransferPiece {
                assigned_to: Some(control.address),
                ..state.transfer.pieces[p]
            }) by {
                let k = choose|k: int|
                    0 <= k < pieces.len() && (#[trigger] pieces[k]).0 == p as usize;
                assert(state.transfer.pieces[p].idx == p);
                assert(pieces[k].0 == p);
            }
        } else {
            if pieces.len() > 0 {
                let p = pieces[0].0 as int;
                assert(!state.transfer.pieces[p].completed);
            }
            assert forall|p: int| 0 <= p < state.transfer.pieces.len() implies transfer.pieces[p]
                == state.transfer.pieces[p] by {
                assert(!holds_piece(pieces, p as usize));
            }
            assert(transfer.pieces =~= state.transfer.pieces);
            assert(transfer =~= state.transfer);
        }
    }
}

/// A piece that a peer brought is complete where its bytes have the digest that the
/// torrent names for it, and free for any peer where they do not. The other pieces are
/// as they were.
pub proof fn lemma_brought_piece(state: EngineState, piece: usize, data: Seq<u8>)
    requires
        piece < state.transfer.pieces.len(),
        data.len() <= state.transfer.left,
    ensures
        ({
            let after = taken(state, piece, data);
            let p = piece as int;
            &&& if sha1_of(data) == state.transfer.torrent.info.pieces[p] {
                &&& after.transfer.pieces[p].completed
                &&& after.transfer.pieces[p].assigned_to == state.transfer.pieces[p].assigned_to
                &&& after.transfer.left + data.len() == state.transfer.left
            } else {
                &&& after.transfer.pieces[p].completed == state.transfer.pieces[p].completed
                &&& after.transfer.pieces[p].assigned_to is None
                &&& after.transfer.left == state.transfer.left
            }
            &&& after.transfer.pieces.len() == state.transfer.pieces.len()
            &&& forall|m: int|
                0 <= m < state.transfer.pieces.len() && m != p
                    ==> #[trigger] after.transfer.pieces[m] == state.transfer.pieces[m]
            &&& after.transfer.total_size == state.transfer.total_size
            &&& after.complete == state.complete
        }),
{
}

/// The first peer that was to bring the piece no longer is, once: its other pieces stay,
/// in order. Nothing else of it changes, and no other peer does.
pub proof fn lemma_brought_piece_is_crossed_off(
    controls: Seq<ControlValue>,
    piece: usize,
    holder: int,
    k: int,
)
    requires
        0 <= holder < controls.len(),
        0 <= k < controls[holder].assigned_pieces.len(),
        controls[holder].assigned_pieces[k].0 == piece,
        forall|j: int|
            0 <= j < k ==> (#[trigger] controls[holder].assigned_pieces[j]).0 != piece,
        forall|i: int, j: int|
            0 <= i < holder && 0 <= j < controls[i].assigned_pieces.len() ==> (
            #[trigger] controls[i].assigned_pieces[j]).0 != piece,
    ensures
        ({
            let after = released(controls, piece);
            let list = controls[holder].assigned_pieces;
            &&& after.len() == controls.len()
            &&& forall|i: int|
                0 <= i < controls.len() && i != holder ==> #[trigger] after[i] == controls[i]
            &&& after[holder].assigned_pieces == list.take(k) + list.skip(k + 1)
            &&& after[holder].address == controls[holder].address
            &&& after[holder].status == controls[holder].status
            &&& after[holder].available_pieces == controls[holder].available_pieces
        }),
{
    let list = controls[holder].assigned_pieces;
    assert(list[k].0 == piece);
    assert(holds_piece(list, piece));
    assert forall|j: int| 0 <= j < holder implies !holds_piece(
        (#[trigger] controls[j]).assigned_pieces,
        piece,
    ) by {
        if holds_piece(controls[j].assigned_pieces, piece) {
            let m = choose|m: int|
                0 <= m < controls[j].assigned_pieces.len() && (
                #[trigger] controls[j].assigned_pieces[m]).0 == piece;
            assert(controls[j].assigned_pieces[m].0 != piece);
        }
    }
    assert(first_holder(controls, piece, holder));
    let found = choose|i: int| first_holder(controls, piece, i);
    assert(first_holder(controls, piece, found));
    assert(found == holder) by {
        if found < holder {
            assert(!holds_piece(controls[found].assigned_pieces, piece));
        } else if holder < found {
            assert(!holds_piece(controls[holder].assigned_pieces, piece));
        }
    }
    assert(first_holding(list, piece, k));
    let at = choose|j: int| first_holding(list, piece, j);
    assert(first_holding(list, piece, at));
    assert(at == k);
    assert(without_piece(list, piece) =~= list.take(k) + list.skip(k + 1));
}

/// A piece that no peer was to bring changes no peer.
pub proof fn lemma_unexpected_piece_changes_no_peer(controls: Seq<ControlValue>, piece: usize)
    requires
        forall|i: int, j: int|
            0 <= i < controls.len() && 0 <= j < controls[i].assigned_pieces.len() ==> (
            #[trigger] controls[i].assigned_pieces[j]).0 != piece,
    ensures
        released(controls, piece) == controls,
{
    if exists|i: int| first_holder(controls, piece, i) {
        let i = choose|i: int| first_holder(controls, piece, i);
        let list = controls[i].assigned_pieces;
        let j = choose|j: int| 0 <= j < list.len() && (#[trigger] list[j]).0 == piece;
        assert(controls[i].assigned_pieces[j].0 != piece);
    }
}

/// The address is that of a peer.
pub open spec fn is_known(controls: Seq<ControlValue>, address: PeerAddress) -> bool {
    exists|i: int| 0 <= i < controls.len() && (#[trigger] controls[i]).address == address
}

/// The peers to connect to are those of the list that are not known, in order.
pub proof fn lemma_unknown_peers(controls: Seq<ControlValue>, peers: Seq<PeerAddress>)
    ensures
        exists|from: Seq<int>| #[trigger]
            picked(peers, new_peers(controls, peers), from) && forall|i: int|
                0 <= i < peers.len() ==> (from.contains(i) <==> !is_known(
                    controls,
                    #[trigger] peers[i],
                )),
{
    let from = lemma_unknown_places(controls, peers);
    assert(picked(peers, new_peers(controls, peers), from));
}

proof fn lemma_unknown_places(controls: Seq<ControlValue>, peers: Seq<PeerAddress>) -> (from: Seq<
    int,
>)
    ensures
        picked(peers, new_peers(controls, peers), from),
        forall|i: int|
            0 <= i < peers.len() ==> (from.contains(i) <==> !is_known(
                controls,
                #[trigger] peers[i],
            )),
    decreases peers.len(),
{
    if peers.len() == 0 {
        Seq::empty()
    } else {
        let shorter = peers.drop_last();
        let before = lemma_unknown_places(controls, shorter);
        let last = peers.len() - 1;
        let from = if is_known(controls, peers.last()) {
            before
        } else {
            before.push(last)
        };
        assert(has_peer(controls, peers.last()) == is_known(controls, peers.last()));
        assert forall|i: int| 0 <= i < peers.len() implies (from.contains(i) <==> !is_known(
            controls,
            #[trigger] peers[i],
        )) by {
            if i < last {
                assert(shorter[i] == peers[i]);
                if before.contains(i) {
                    let k = choose|k: int| 0 <= k < before.len() && before[k] == i;
                    assert(from[k] == i);
                }
                if from.contains(i) {
                    let k = choose|k: int| 0 <= k < from.len() && from[k] == i;
                    assert(before[k] == i);
                }
            } else if !is_known(controls, peers[i]) {
                assert(from[before.len() as int] == last);
            } else if from.contains(i) {
                let k = choose|k: int| 0 <= k < from.len() && from[k] == i;
                assert(before[k] == i);
            }
        }
        from
    }
}

/// Each peer that is added is one of the list, is noted once, is busy, and is not known
/// to have any piece or to have been given one.
pub proof fn lemma_added_peers(controls: Seq<ControlValue>, peers: Seq<PeerAddress>)
    ensures
        ({
            let after = with_peers(controls, peers);
            &&& controls.len() <= after.len()
            &&& forall|i: int| 0 <= i < controls.len() ==> #[trigger] after[i] == controls[i]
            &&& forall|i: int|
                controls.len() <= i < after.len() ==> {
                    let control = #[trigger] after[i];
                    &&& peers.contains(control.address)
                    &&& control.status == PeerStatus::Busy
                    &&& control.available_pieces.len() == 0
                    &&& control.assigned_pieces.len() == 0
                }
            &&& forall|i: int| 0 <= i < peers.len() ==> is_known(after, #[trigger] peers[i])
            &&& forall|i: int, j: int|
                0 <= i < j < after.len() && controls.len() <= j ==> (#[trigger] after[i]).address
                    != (#[trigger] after[j]).address
        }),
    decreases peers.len(),
{
    let after = with_peers(controls, peers);
    if peers.len() > 0 {
        let shorter = peers.drop_last();
        lemma_added_peers(controls, shorter);
        let before = with_peers(controls, shorter);
        assert(has_peer(before, peers.last()) == is_known(before, peers.last()));
        assert forall|i: int| controls.len() <= i < after.len() implies peers.contains(
            (#[trigger] after[i]).address,
        ) by {
            if i < before.len() {
                assert(after[i] == before[i]);
                let k = choose|k: int| 0 <= k < shorter.len() && shorter[k] == before[i].address;
                assert(peers[k] == before[i].address);
            } else {
                assert(peers[peers.len() - 1] == after[i].address);
            }
        }
        assert forall|i: int| 0 <= i < peers.len() implies is_known(after, #[trigger] peers[i]) by {
            if i < shorter.len() {
                assert(is_known(before, shorter[i]));
                let k = choose|k: int|
                    0 <= k < before.len() && (#[trigger] before[k]).address == shorter[i];
                assert(after[k].address == peers[i]);
            } else if !is_known(before, peers[i]) {
                assert(after[before.len() as int].address == peers[i]);
            }
        }
        assert forall|i: int, j: int|
            0 <= i < j < after.len() && controls.len() <= j implies (
        #[trigger] after[i]).address != (#[trigger] after[j]).address by {
            if j < before.len() {
                assert(before[i].address != before[j].address);
            } else {
                assert(after[i] == before[i]);
                assert(!is_known(before, peers.last()));
            }
        }
    }
}

/// The engine goes by what it last heard of a peer, and a peer of which nothing more can
/// be heard is gone.
pub proof fn lemma_news(before: PeerStatus, heard: PeerStatus, address: PeerAddress)
    ensures
        news_status(before, StatusNews::Unchanged) == before,
        news_status(before, StatusNews::Changed(heard)) == heard,
        news_status(before, StatusNews::Gone) == PeerStatus::Disconnected,
        fresh_control(address).address == address,
{
}

/// A piece is still free that the peer says nothing of.
pub open spec fn leaves_open(transfer: TransferState, available: Seq<bool>) -> bool {
    exists|p: int|
        available.len() <= p < transfer.pieces.len() && !(#[trigger] transfer.pieces[p]).completed
            && transfer.pieces[p].assigned_to is None
}

proof fn lemma_search(transfer: TransferState, available: Seq<bool>)
    requires
        transfer_ok(transfer),
    ensures
        search_ok(transfer.pieces, available) <==> (leaves_open(transfer, available)
            ==> has_something_to_give(transfer, available)),
{
    lemma_something_to_give(transfer, available);
    if has_something_to_give(transfer, available) {
        let first = choose|i: int| first_suiting(transfer.pieces, available, i);
        assert(suits(transfer.pieces, available, first));
        assert(transfer.pieces[first].idx == first);
        assert forall|i: int|
            0 <= i < transfer.pieces.len() && free(#[trigger] transfer.pieces[i])
                && transfer.pieces[i].idx >= available.len() implies exists|j: int|
            0 <= j < i && #[trigger] suits(transfer.pieces, available, j) by {
            assert(transfer.pieces[i].idx == i);
            assert(0 <= first < i && suits(transfer.pieces, available, first));
        }
    } else {
        assert forall|j: int| 0 <= j < transfer.pieces.len() implies !suits(
            transfer.pieces,
            available,
            j,
        ) by {
            assert(transfer.pieces[j].idx == j);
        }
        if leaves_open(transfer, available) {
            let p = choose|p: int|
                available.len() <= p < transfer.pieces.len() && !(
                #[trigger] transfer.pieces[p]).completed && transfer.pieces[p].assigned_to is None;
            assert(transfer.pieces[p].idx == p);
            assert(free(transfer.pieces[p]));
        } else {
            assert forall|i: int|
                0 <= i < transfer.pieces.len() && free(
                    #[trigger] transfer.pieces[i],
                ) implies transfer.pieces[i].idx < available.len() by {
                assert(transfer.pieces[i].idx == i);
            }
        }
    }
}

/// A peer that says nothing of any piece is left alone. One that says too little of the
/// pieces, and has nothing to give, cannot be served while a piece that it says nothing
/// of is free; otherwise one that has just connected always can.
pub proof fn lemma_peer_that_says_too_little(state: EngineState, i: int)
    requires
        engine_ok(state),
        0 <= i < state.controls.len(),
    ensures
        ({
            let control = state.controls[i];
            let wanted = has_something_to_give(state.transfer, control.available_pieces);
            let open = leaves_open(state.transfer, control.available_pieces);
            &&& control.available_pieces.len() == 0 && (control.status is Ready || control.status
                is ConnectionEstablished) ==> served(state, i) == Some((state, TaskValue::Rest))
            &&& control.status is ConnectionEstablished && control.available_pieces.len() > 0 ==> (
            served(state, i) is None <==> open && !wanted)
            &&& control.status is ConnectionEstablished && wanted ==> served(state, i) == Some(
                (state, TaskValue::Command(CommandValue::SendInterested)),
            )
            &&& control.status is Ready && control.available_pieces.len() > 0 && open && !wanted
                ==> served(state, i) is None
            &&& control.status is Ready && !open ==> served(state, i) is Some
        }),
{
    let control = state.controls[i];
    lemma_search(state.transfer, control.available_pieces);
    lemma_something_to_give(state.transfer, control.available_pieces);
    if control.available_pieces.len() == 0 {
        assert(!has_something_to_give(state.transfer, control.available_pieces));
    }
    if !leaves_open(state.transfer, control.available_pieces) {
        lemma_giving_goes_on(state.transfer, control.available_pieces, control.address, 5);
    }
    reveal_with_fuel(give, 2);
}

proof fn lemma_giving_goes_on(
    transfer: TransferState,
    available: Seq<bool>,
    address: PeerAddress,
    count: nat,
)
    requires
        transfer_ok(transfer),
        !leaves_open(transfer, available),
    ensures
        give(transfer, available, address, count) is Some,
    decreases count,
{
    lemma_search(transfer, available);
    if count > 0 && available.len() > 0 && (exists|i: int|
        first_suiting(transfer.pieces, available, i)) {
        let i = choose|i: int| first_suiting(transfer.pieces, available, i);
        let middle = assigned(transfer, i, address);
        if leaves_open(middle, available) {
            let p = choose|p: int|
                available.len() <= p < middle.pieces.len() && !(
                #[trigger] middle.pieces[p]).completed && middle.pieces[p].assigned_to is None;
            assert(transfer.pieces[p] == middle.pieces[p]);
        }
        lemma_giving_goes_on(middle, available, address, (count - 1) as nat);
    }
}

} // verus!
