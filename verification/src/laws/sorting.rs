//! What holds of the entries that the panel shows, told by their fields.
use crate::entry::{entry_views, ProcessEntry};
use crate::laws::words::{comes_first, law_names_are_in_dictionary_order};
use crate::names::{lemma_text_before_asymmetric, lowercase, text_before};
use crate::order::{goes_first, is_arrangement, lists_in_order, picked, rearranges};
use crate::percent::{lemma_scaled_magnitude_increases, scaled_magnitude, CpuPercent};
use crate::view::{
    column_order, column_title, indicator, lemma_column_ranks, shows_sorted, sortable, toggled,
    ResourceMonitorView, SortColumn,
};
use vstd::prelude::*;

verus! {

/// The number that the pattern of a CPU usage has where its top bit is read as a sign. Two usages
/// compare as these numbers do.
pub open spec fn signed_pattern(bits: u32) -> int {
    if bits < 0x8000_0000 {
        bits as int
    } else {
        0x8000_0000 - bits
    }
}

/// CPU usages compare as their patterns do, read as a sign and a magnitude; a pattern above that of
/// infinity is not a number and compares with nothing.
pub proof fn law_cpu_order_is_that_of_patterns(a: CpuPercent, b: CpuPercent)
    ensures
        a.below(b) <==> {
            &&& a.bits as int % 0x8000_0000 <= 0x7f80_0000
            &&& b.bits as int % 0x8000_0000 <= 0x7f80_0000
            &&& signed_pattern(a.bits) < signed_pattern(b.bits)
        },
        a.value() < b.value() <==> signed_pattern(a.bits) < signed_pattern(b.bits),
        a.spec_is_nan() <==> a.bits as int % 0x8000_0000 > 0x7f80_0000,
{
    let mine = a.bits as nat % 0x8000_0000;
    let theirs = b.bits as nat % 0x8000_0000;
    assert(scaled_magnitude(0) == 0);
    if mine < theirs {
        lemma_scaled_magnitude_increases(mine, theirs);
    } else if theirs < mine {
        lemma_scaled_magnitude_increases(theirs, mine);
    }
    if mine > 0 {
        lemma_scaled_magnitude_increases(0, mine);
    }
    if theirs > 0 {
        lemma_scaled_magnitude_increases(0, theirs);
    }
}

/// Both entries have the same fields.
pub open spec fn says_the_same(a: ProcessEntry, b: ProcessEntry) -> bool {
    &&& a.name@ == b.name@
    &&& match (a.context, b.context) {
        (Some(a), Some(b)) => a@ == b@,
        (None, None) => true,
        _ => false,
    }
    &&& a.category == b.category
    &&& a.pid == b.pid
    &&& a.cpu_percent.bits == b.cpu_percent.bits
    &&& a.memory_bytes == b.memory_bytes
}

/// In the ascending order of `column`, `a` is not above `b`.
pub open spec fn not_above(column: SortColumn, a: ProcessEntry, b: ProcessEntry) -> bool {
    match column {
        SortColumn::Name => !comes_first(lowercase(b.name@), lowercase(a.name@)),
        SortColumn::Pid => match (a.pid, b.pid) {
            (None, _) => true,
            (Some(_), None) => false,
            (Some(a), Some(b)) => a <= b,
        },
        SortColumn::Cpu => signed_pattern(a.cpu_percent.bits) <= signed_pattern(b.cpu_percent.bits),
        SortColumn::Memory => a.memory_bytes <= b.memory_bytes,
    }
}

/// The panel shows every entry once, sorted by the chosen column in the chosen direction. Entries
/// that the column does not tell apart keep their order.
///
/// `places[i]` is where the `i`-th shown entry stands among `entries`.
pub proof fn law_panel_shows_entries_in_order(
    state: ResourceMonitorView,
    sorted: Seq<ProcessEntry>,
    entries: Seq<ProcessEntry>,
)
    requires
        shows_sorted(state, entry_views(sorted), entry_views(entries)),
        state.sort_column == SortColumn::Cpu ==> forall|i: int|
            0 <= i < entries.len() ==> (#[trigger] entries[i]).cpu_percent.bits as int % 0x8000_0000
                <= 0x7f80_0000,
    ensures
        exists|places: Seq<int>|
            {
                &&& #[trigger] places.no_duplicates()
                &&& places.len() == sorted.len()
                &&& sorted.len() == entries.len()
                &&& forall|i: int|
                    0 <= i < sorted.len() ==> 0 <= #[trigger] places[i] < entries.len()
                        && says_the_same(sorted[i], entries[places[i]])
                &&& forall|i: int, j: int|
                    0 <= i < j < sorted.len() ==> {
                        let a = #[trigger] sorted[i];
                        let b = #[trigger] sorted[j];
                        &&& state.sort_ascending ==> not_above(state.sort_column, a, b)
                        &&& !state.sort_ascending ==> not_above(state.sort_column, b, a)
                        &&& not_above(state.sort_column, a, b) && not_above(state.sort_column, b, a)
                            ==> places[i] < places[j]
                    }
            },
{
    let column = state.sort_column;
    let shown = entry_views(sorted);
    let input = entry_views(entries);
    let before = column_order(column, state.sort_ascending);
    assert(sortable(column, input)) by {
        if column == SortColumn::Cpu {
            assert forall|i: int| 0 <= i < input.len() implies !(
            #[trigger] input[i]).cpu_percent.spec_is_nan() by {
                assert(input[i] == entries[i]@);
                law_cpu_order_is_that_of_patterns(entries[i].cpu_percent, entries[i].cpu_percent);
            }
        }
    }
    lemma_column_ranks(column, state.sort_ascending, input);
    let places = choose|places: Seq<int>| #[trigger]
        is_arrangement(places, input.len()) && shown == picked(input, places) && lists_in_order(
            places,
            input,
            before,
        );
    assert(shown.len() == sorted.len());
    assert(places.no_duplicates());
    assert forall|i: int| 0 <= i < sorted.len() implies 0 <= #[trigger] places[i] < entries.len()
        && says_the_same(sorted[i], entries[places[i]]) by {
        assert(shown[i] == sorted[i]@);
        assert(input[places[i]] == entries[places[i]]@);
    }
    assert forall|i: int, j: int| 0 <= i < j < sorted.len() implies {
        let a = #[trigger] sorted[i];
        let b = #[trigger] sorted[j];
        &&& state.sort_ascending ==> not_above(column, a, b)
        &&& !state.sort_ascending ==> not_above(column, b, a)
        &&& not_above(column, a, b) && not_above(column, b, a) ==> places[i] < places[j]
    } by {
        let a = sorted[i];
        let b = sorted[j];
        assert(shown[i] == a@ && shown[i] == input[places[i]]);
        assert(shown[j] == b@ && shown[j] == input[places[j]]);
        assert(goes_first(input, before, places[i], places[j]));
        match column {
            SortColumn::Name => {
                let (x, y) = (lowercase(a.name@), lowercase(b.name@));
                law_names_are_in_dictionary_order(x, y);
                law_names_are_in_dictionary_order(y, x);
                if text_before(x, y) {
                    lemma_text_before_asymmetric(x, y);
                }
                if text_before(y, x) {
                    lemma_text_before_asymmetric(y, x);
                }
            },
            SortColumn::Cpu => {
                assert(!input[places[i]].cpu_percent.spec_is_nan());
                assert(!input[places[j]].cpu_percent.spec_is_nan());
                law_cpu_order_is_that_of_patterns(a.cpu_percent, b.cpu_percent);
                law_cpu_order_is_that_of_patterns(b.cpu_percent, a.cpu_percent);
            },
            _ => {},
        }
    }
}

/// Sorted by memory, larger sizes come first or last as the direction says.
pub proof fn law_panel_sorts_by_memory(
    state: ResourceMonitorView,
    sorted: Seq<ProcessEntry>,
    entries: Seq<ProcessEntry>,
    i: int,
    j: int,
)
    requires
        shows_sorted(state, entry_views(sorted), entry_views(entries)),
        state.sort_column == SortColumn::Memory,
        0 <= i < j < sorted.len(),
    ensures
        state.sort_ascending ==> sorted[i].memory_bytes <= sorted[j].memory_bytes,
        !state.sort_ascending ==> sorted[i].memory_bytes >= sorted[j].memory_bytes,
{
    law_panel_shows_entries_in_order(state, sorted, entries);
}

/// Sorted by process identifier, entries without one are the smallest.
pub proof fn law_panel_sorts_by_pid(
    state: ResourceMonitorView,
    sorted: Seq<ProcessEntry>,
    entries: Seq<ProcessEntry>,
    i: int,
    j: int,
)
    requires
        shows_sorted(state, entry_views(sorted), entry_views(entries)),
        state.sort_column == SortColumn::Pid,
        0 <= i < j < sorted.len(),
    ensures
        sorted[i].pid is Some && sorted[j].pid is Some ==> if state.sort_ascending {
            sorted[i].pid->0 <= sorted[j].pid->0
        } else {
            sorted[i].pid->0 >= sorted[j].pid->0
        },
        state.sort_ascending && sorted[j].pid is None ==> sorted[i].pid is None,
        !state.sort_ascending && sorted[i].pid is None ==> sorted[j].pid is None,
{
    law_panel_shows_entries_in_order(state, sorted, entries);
}

/// Sorted by CPU usage, where every usage is a number, larger usages come first or last as the
/// direction says.
pub proof fn law_panel_sorts_by_cpu(
    state: ResourceMonitorView,
    sorted: Seq<ProcessEntry>,
    entries: Seq<ProcessEntry>,
    i: int,
    j: int,
)
    requires
        shows_sorted(state, entry_views(sorted), entry_views(entries)),
        state.sort_column == SortColumn::Cpu,
        forall|k: int|
            0 <= k < entries.len() ==> (#[trigger] entries[k]).cpu_percent.bits as int % 0x8000_0000
                <= 0x7f80_0000,
        0 <= i < j < sorted.len(),
    ensures
        state.sort_ascending ==> sorted[i].cpu_percent.value() <= sorted[j].cpu_percent.value(),
        !state.sort_ascending ==> sorted[i].cpu_percent.value() >= sorted[j].cpu_percent.value(),
{
    law_panel_shows_entries_in_order(state, sorted, entries);
    law_cpu_order_is_that_of_patterns(sorted[i].cpu_percent, sorted[j].cpu_percent);
    law_cpu_order_is_that_of_patterns(sorted[j].cpu_percent, sorted[i].cpu_percent);
}

/// Whatever the panel sorts by, and also where some CPU usage is not a number, it shows every entry
/// once.
pub proof fn law_panel_shows_every_entry(
    state: ResourceMonitorView,
    sorted: Seq<ProcessEntry>,
    entries: Seq<ProcessEntry>,
)
    requires
        shows_sorted(state, entry_views(sorted), entry_views(entries)),
    ensures
        exists|places: Seq<int>|
            {
                &&& #[trigger] places.no_duplicates()
                &&& places.len() == sorted.len()
                &&& sorted.len() == entries.len()
                &&& forall|i: int|
                    0 <= i < sorted.len() ==> 0 <= #[trigger] places[i] < entries.len()
                        && says_the_same(sorted[i], entries[places[i]])
            },
{
    let shown = entry_views(sorted);
    let input = entry_views(entries);
    assert(rearranges(shown, input));
    let places = choose|places: Seq<int>| #[trigger]
        is_arrangement(places, input.len()) && shown == picked(input, places);
    assert(shown.len() == sorted.len());
    assert(places.no_duplicates());
    assert forall|i: int| 0 <= i < sorted.len() implies 0 <= #[trigger] places[i] < entries.len()
        && says_the_same(sorted[i], entries[places[i]]) by {
        assert(shown[i] == sorted[i]@);
        assert(input[places[i]] == entries[places[i]]@);
    }
}

/// A click on a heading sorts by that column, and ascending only where the panel sorted by it
/// descending before.
pub proof fn law_click_sorts_by_the_column(state: ResourceMonitorView, column: SortColumn)
    ensures
        toggled(state, column).sort_column == column,
        toggled(state, column).sort_ascending <==> state.sort_column == column
            && !state.sort_ascending,
{
}

/// Headings are the titles of the columns; behind the one that is sorted by, a triangle points up
/// where the smallest come first and down where the largest do.
pub proof fn law_headings(state: ResourceMonitorView)
    ensures
        column_title(SortColumn::Name) == seq!['N', 'a', 'm', 'e'],
        column_title(SortColumn::Pid) == seq!['P', 'I', 'D'],
        column_title(SortColumn::Cpu) == seq!['C', 'P', 'U'],
        column_title(SortColumn::Memory) == seq!['M', 'e', 'm', 'o', 'r', 'y'],
        indicator(state, state.sort_column) == seq![
            ' ',
            if state.sort_ascending {
                '▲'
            } else {
                '▼'
            },
        ],
        forall|column: SortColumn|
            column != state.sort_column ==> #[trigger] indicator(state, column).len() == 0,
{
    reveal_strlit("Name");
    reveal_strlit("PID");
    reveal_strlit("CPU");
    reveal_strlit("Memory");
    reveal_strlit("");
    reveal_strlit(" ▲");
    reveal_strlit(" ▼");
}

} // verus!
