//! What the keys do to the screen.
use vstd::prelude::*;

use crate::ui::{App, Key, RowCounts, UiEvent, on_event, rate_of, sum, yes_no};

verus! {

/// The row that is selected in a tab.
pub open spec fn row_in(app: App, tab: int) -> Option<usize> {
    if tab == 0 {
        app.files_selected
    } else if tab == 1 {
        app.peers_selected
    } else {
        app.pieces_selected
    }
}

/// The number that the rows of a tab are counted up to.
pub open spec fn rows_of(counts: RowCounts, tab: int) -> usize {
    if tab == 0 {
        counts.files
    } else if tab == 1 {
        counts.peers
    } else {
        counts.pieces
    }
}

/// The keys to the right and to the left go round the three tabs, one at a time, and
/// touch nothing else; the other events stay in the tab.
pub proof fn lemma_tabs(app: App, event: UiEvent, counts: RowCounts)
    requires
        app.selected_tab < 3,
    ensures
        ({
            let (after, outcome) = on_event(app, event, counts);
            let sideways = event == UiEvent::Released(Key::Left) || event == UiEvent::Released(
                Key::Right,
            );
            &&& event == UiEvent::Released(Key::Right) ==> after.selected_tab == (app.selected_tab
                + 1) % 3
            &&& event == UiEvent::Released(Key::Left) ==> after.selected_tab == (app.selected_tab
                + 2) % 3
            &&& !sideways ==> after.selected_tab == app.selected_tab
            &&& sideways ==> {
                &&& outcome is Draw
                &&& after.files_selected == app.files_selected
                &&& after.peers_selected == app.peers_selected
                &&& after.pieces_selected == app.pieces_selected
            }
            &&& after.transfer_size == app.transfer_size
            &&& after.transfer_progress == app.transfer_progress
        }),
{
}

/// Up and down, by the keys or by the wheel, go round the rows of the tab that is shown,
/// one at a time, and leave the rows of the other tabs alone.
pub proof fn lemma_rows(app: App, event: UiEvent, counts: RowCounts, at: usize)
    requires
        app.selected_tab < 3,
        row_in(app, app.selected_tab as int) == Some(at),
        at <= rows_of(counts, app.selected_tab as int) < usize::MAX,
    ensures
        ({
            let (after, outcome) = on_event(app, event, counts);
            let tab = app.selected_tab as int;
            let max = rows_of(counts, tab);
            let up = event == UiEvent::Released(Key::Up) || event is ScrollUp;
            let down = event == UiEvent::Released(Key::Down) || event is ScrollDown;
            &&& up || down ==> outcome is Draw
            &&& down ==> row_in(after, tab) == Some(((at + 1) % (max + 1)) as usize)
            &&& up ==> row_in(after, tab) == Some(((at + max) % (max + 1)) as usize)
            &&& forall|other: int|
                0 <= other < 3 && (other != tab || (!up && !down)) ==> #[trigger] row_in(
                    after,
                    other,
                ) == row_in(app, other)
        }),
{
    let max = rows_of(counts, app.selected_tab as int) as int;
    if at < max {
        assert((at + 1) % (max + 1) == at + 1) by (nonlinear_arith)
            requires
                0 <= at < max,
        ;
    } else {
        assert((at + 1) % (max + 1) == 0) by (nonlinear_arith)
            requires
                at == max,
                max >= 0,
        ;
    }
    if at > 0 {
        assert((at + max) % (max + 1) == at - 1) by (nonlinear_arith)
            requires
                0 < at <= max,
        ;
    } else {
        assert((at + max) % (max + 1) == max) by (nonlinear_arith)
            requires
                at == 0,
                max >= 0,
        ;
    }
}

/// In a tab in which no row is selected yet, down goes to the row behind the first one,
/// and up to the last one.
pub proof fn lemma_first_row(app: App, event: UiEvent, counts: RowCounts)
    requires
        app.selected_tab < 3,
        row_in(app, app.selected_tab as int) is None,
    ensures
        ({
            let (after, outcome) = on_event(app, event, counts);
            let tab = app.selected_tab as int;
            let max = rows_of(counts, tab);
            let up = event == UiEvent::Released(Key::Up) || event is ScrollUp;
            let down = event == UiEvent::Released(Key::Down) || event is ScrollDown;
            &&& up ==> row_in(after, tab) == Some(max)
            &&& down && max > 0 ==> row_in(after, tab) == Some(1usize)
            &&& down && max == 0 ==> row_in(after, tab) == Some(0usize)
        }),
{
}

/// The program ends by the key for it and by nothing else; a key that was only pressed
/// is passed over, and any other event does nothing.
pub proof fn lemma_outcomes(app: App, event: UiEvent, counts: RowCounts)
    ensures
        on_event(app, event, counts).1 is Quit <==> event == UiEvent::Released(Key::Quit),
        on_event(app, event, counts).1 is Skip <==> event is Pressed,
        on_event(app, event, counts).1 is Idle <==> event is Other || event == UiEvent::Released(
            Key::Other,
        ),
        !(on_event(app, event, counts).1 is Draw) ==> on_event(app, event, counts).0 == app,
{
}

/// A rate is what was transferred in a second, rounded down; none in the first second.
pub proof fn lemma_rate(bytes: usize, secs: u64)
    requires
        secs <= usize::MAX,
    ensures
        secs > 0 ==> rate_of(bytes, secs) * secs <= bytes < (rate_of(bytes, secs) + 1) * secs,
        secs == 0 ==> rate_of(bytes, secs) == 0,
{
    if secs > 0 {
        let q = bytes as int / secs as int;
        assert(q * secs <= bytes < (q + 1) * secs) by (nonlinear_arith)
            requires
                q == bytes as int / secs as int,
                secs > 0,
        ;
    }
}

/// Numbers are added up, in whatever parts.
pub proof fn lemma_sum(first: Seq<usize>, second: Seq<usize>, n: usize)
    ensures
        sum(first + second) == sum(first) + sum(second),
        sum(seq![n]) == n,
        sum(Seq::empty()) == 0,
    decreases second.len(),
{
    reveal_with_fuel(sum, 2);
    assert(seq![n].drop_last() =~= Seq::empty());
    if second.len() == 0 {
        assert(first + second =~= first);
    } else {
        lemma_sum(first, second.drop_last(), n);
        assert((first + second).drop_last() =~= first + second.drop_last());
        assert((first + second).last() == second.last());
    }
}

/// A flag is shown by a word.
pub proof fn lemma_yes_no()
    ensures
        yes_no(true) == "Yes"@,
        yes_no(false) == "No"@,
{
}

} // verus!
