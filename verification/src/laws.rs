//! What holds of the monitor as a whole.
use crate::collector::{
    is_snapshot_of, main_entry, monitored_entries, server_entries, terminal_entries,
    LanguageServerStatus, TerminalStatus,
};
use crate::entry::{
    category_then_name, entry_views, lemma_category_then_name_ranks, lemma_memory_total_rearranged,
    memory_total, EntryView, ProcessCategory, ProcessSnapshot,
};
use crate::names::{lemma_text_before_total, lowercase};
use crate::order::{
    goes_first, is_arrangement, lemma_arrangement_covers, lemma_sorted_is_rearranged,
    lists_in_order, picked, ranks, rearranges, sorts_stably,
};
use crate::percent::CpuPercent;
use crate::percent_sum::adds_to;
use crate::process_tree::{
    ancestor, descends_from, lemma_ancestor_split, lemma_memory_sum_remove, memory_sum,
    tree_members, tree_memory, ProcessInfo,
};
use crate::report::{entry_line, entry_lines, heading_line, pid_text, starts_group};
use crate::rounding::{nearest, round_half_even};
use crate::rows::{grouped_rows, list_of, row_of, ItemView, RowView};
use crate::text::{decimal, digit_char, nearest_double};
use crate::view::{
    column_ascends, column_order, indicator, toggled, ResourceMonitorView, SortColumn,
};
use vstd::prelude::*;

pub mod lines;
pub mod numbers;
pub mod snapshots;
pub mod sorting;
pub mod sums;
pub mod trees;
pub mod words;

verus! {

// Process trees

/// Every process belongs to its own tree.
pub proof fn law_descends_from_itself(parents: Map<u32, u32>, pid: u32)
    ensures
        descends_from(parents, pid, pid),
{
    assert(ancestor(parents, pid, 0) == Some(pid));
}

/// A parent link makes a descendant.
pub proof fn law_descends_from_parent(parents: Map<u32, u32>, pid: u32)
    requires
        parents.contains_key(pid),
    ensures
        descends_from(parents, pid, parents[pid]),
{
    assert(ancestor(parents, pid, 0) == Some(pid));
    assert(ancestor(parents, pid, 1) == Some(parents[pid]));
}

/// Descendants of a descendant are descendants.
pub proof fn law_descends_transitively(parents: Map<u32, u32>, pid: u32, middle: u32, root: u32)
    requires
        descends_from(parents, pid, middle),
        descends_from(parents, middle, root),
    ensures
        descends_from(parents, pid, root),
{
    let first = choose|steps: nat| #[trigger] ancestor(parents, pid, steps) == Some(middle);
    let second = choose|steps: nat| #[trigger] ancestor(parents, middle, steps) == Some(root);
    lemma_ancestor_split(parents, pid, first, second);
    assert(ancestor(parents, pid, first + second) == Some(root));
}

/// Fewer processes do not use more memory.
proof fn lemma_memory_sum_subset(table: Map<u32, ProcessInfo>, some: Set<u32>, all: Set<u32>)
    requires
        all.finite(),
        some.subset_of(all),
    ensures
        memory_sum(table, some) <= memory_sum(table, all),
    decreases all.len(),
{
    if all.len() > 0 {
        let pid = all.choose();
        if some.contains(pid) {
            lemma_memory_sum_subset(table, some.remove(pid), all.remove(pid));
            vstd::set_lib::lemma_set_subset_finite(all, some);
            lemma_memory_sum_remove(table, some, pid);
        } else {
            lemma_memory_sum_subset(table, some, all.remove(pid));
        }
    } else {
        assert(some =~= all);
    }
}

/// The tree of a descendant uses no more memory than the tree that it is part of.
pub proof fn law_subtree_memory(
    table: Map<u32, ProcessInfo>,
    parents: Map<u32, u32>,
    pid: u32,
    root: u32,
)
    requires
        table.dom().finite(),
        descends_from(parents, pid, root),
    ensures
        tree_memory(table, parents, pid) <= tree_memory(table, parents, root),
{
    let inner = tree_members(table, parents, pid);
    let outer = tree_members(table, parents, root);
    assert forall|p: u32| inner.contains(p) implies outer.contains(p) by {
        law_descends_transitively(parents, p, pid, root);
    }
    lemma_memory_sum_subset(table, inner, outer);
}

// Sorting

/// A ranked list has one stable sorting.
pub proof fn law_stable_sorting_is_unique<A>(
    one: Seq<A>,
    other: Seq<A>,
    input: Seq<A>,
    before: spec_fn(A, A) -> bool,
)
    requires
        ranks(input, before),
        sorts_stably(one, input, before),
        sorts_stably(other, input, before),
    ensures
        one == other,
{
    let p = choose|places: Seq<int>| #[trigger]
        is_arrangement(places, input.len()) && one == picked(input, places) && lists_in_order(
            places,
            input,
            before,
        );
    let q = choose|places: Seq<int>| #[trigger]
        is_arrangement(places, input.len()) && other == picked(input, places) && lists_in_order(
            places,
            input,
            before,
        );
    assert forall|i: int| 0 <= i < input.len() implies p[i] == q[i] by {
        lemma_same_place(p, q, input, before, i);
    }
    assert(p =~= q);
}

proof fn lemma_same_place<A>(
    p: Seq<int>,
    q: Seq<int>,
    input: Seq<A>,
    before: spec_fn(A, A) -> bool,
    i: int,
)
    requires
        ranks(input, before),
        is_arrangement(p, input.len()),
        is_arrangement(q, input.len()),
        lists_in_order(p, input, before),
        lists_in_order(q, input, before),
        0 <= i < input.len(),
    ensures
        p[i] == q[i],
    decreases i,
{
    assert forall|k: int| 0 <= k < i implies p[k] == q[k] by {
        lemma_same_place(p, q, input, before, k);
    }
    if p[i] != q[i] {
        // Each of the two places comes later in the other list.
        lemma_arrangement_covers(p, input.len(), q[i]);
        lemma_arrangement_covers(q, input.len(), p[i]);
        let x = choose|x: int| 0 <= x < p.len() && #[trigger] p[x] == q[i];
        let y = choose|y: int| 0 <= y < q.len() && #[trigger] q[y] == p[i];
        assert(i < x && i < y);
        assert(goes_first(input, before, p[i], p[x]));
        assert(goes_first(input, before, q[i], q[y]));
    }
}

/// In a sorted list nothing stands before what it belongs behind.
pub proof fn law_sorted_is_in_order<A>(
    output: Seq<A>,
    input: Seq<A>,
    before: spec_fn(A, A) -> bool,
    i: int,
    j: int,
)
    requires
        ranks(input, before),
        sorts_stably(output, input, before),
        0 <= i < j < output.len(),
    ensures
        !before(output[j], output[i]),
{
    let places = choose|places: Seq<int>| #[trigger]
        is_arrangement(places, input.len()) && output == picked(input, places) && lists_in_order(
            places,
            input,
            before,
        );
    assert(goes_first(input, before, places[i], places[j]));
}

/// Sorting a sorted list changes nothing.
pub proof fn law_sorting_again_changes_nothing<A>(
    output: Seq<A>,
    input: Seq<A>,
    before: spec_fn(A, A) -> bool,
)
    requires
        ranks(input, before),
        sorts_stably(output, input, before),
    ensures
        sorts_stably(output, output, before),
{
    let same = Seq::new(output.len(), |i: int| i);
    assert(is_arrangement(same, output.len()));
    assert(output =~= picked(output, same));
    assert forall|i: int, j: int| 0 <= i < j < same.len() implies #[trigger] goes_first(
        output,
        before,
        same[i],
        same[j],
    ) by {
        law_sorted_is_in_order(output, input, before, i, j);
    }
}

/// Where a column tells all entries apart, sorting the other way gives the list backwards.
pub proof fn law_direction_turns_the_list(
    ascending: Seq<EntryView>,
    entries: Seq<EntryView>,
    column: SortColumn,
)
    requires
        sorts_stably(ascending, entries, column_order(column, true)),
        forall|i: int, j: int|
            0 <= i < entries.len() && 0 <= j < entries.len() && i != j
                ==> #[trigger] column_ascends(column, entries[i], entries[j]) || column_ascends(
                column,
                entries[j],
                entries[i],
            ),
    ensures
        sorts_stably(ascending.reverse(), entries, column_order(column, false)),
{
    let places = choose|places: Seq<int>| #[trigger]
        is_arrangement(places, entries.len()) && ascending == picked(entries, places)
            && lists_in_order(places, entries, column_order(column, true));
    let turned = places.reverse();
    let n = places.len() as int;
    assert(is_arrangement(turned, entries.len())) by {
        assert forall|i: int| 0 <= i < turned.len() implies 0 <= #[trigger] turned[i]
            < entries.len() by {
            assert(turned[i] == places[n - 1 - i]);
        }
    }
    assert(ascending.reverse() =~= picked(entries, turned));
    assert forall|i: int, j: int| 0 <= i < j < turned.len() implies #[trigger] goes_first(
        entries,
        column_order(column, false),
        turned[i],
        turned[j],
    ) by {
        assert(turned[i] == places[n - 1 - i]);
        assert(turned[j] == places[n - 1 - j]);
        assert(goes_first(
            entries,
            column_order(column, true),
            places[n - 1 - j],
            places[n - 1 - i],
        ));
        assert(column_ascends(column, entries[turned[j]], entries[turned[i]]) || column_ascends(
            column,
            entries[turned[i]],
            entries[turned[j]],
        ));
    }
}

/// Names that the order of names does not tell apart differ in case only.
pub proof fn law_tied_names_differ_in_case_only(a: EntryView, b: EntryView)
    requires
        !column_ascends(SortColumn::Name, a, b),
        !column_ascends(SortColumn::Name, b, a),
    ensures
        lowercase(a.name) == lowercase(b.name),
{
    lemma_text_before_total(lowercase(a.name), lowercase(b.name));
}

// Snapshots

/// A fresh snapshot shows the editor, every language server and every terminal that is there, and
/// nothing else.
pub proof fn law_snapshot_is_complete(
    snapshot: ProcessSnapshot,
    table: Map<u32, ProcessInfo>,
    own_pid: u32,
    servers: Seq<LanguageServerStatus>,
    terminals: Seq<Option<TerminalStatus>>,
)
    requires
        is_snapshot_of(snapshot, monitored_entries(table, own_pid, servers, terminals)),
    ensures
        rearranges(
            entry_views(snapshot.entries@),
            seq![main_entry(table, own_pid)] + server_entries(table, servers) + terminal_entries(
                table,
                terminals,
            ),
        ),
        snapshot.entries@.len() == 1 + servers.len() + terminal_entries(table, terminals).len(),
{
    let shown = entry_views(snapshot.entries@);
    let monitored = monitored_entries(table, own_pid, servers, terminals);
    lemma_sorted_is_rearranged(shown, monitored, category_then_name());
    let places = choose|places: Seq<int>| #[trigger]
        is_arrangement(places, monitored.len()) && shown == picked(monitored, places);
    assert(shown.len() == snapshot.entries@.len());
}

/// The total of a fresh snapshot is the sum over the entries that it shows.
pub proof fn law_snapshot_total_is_of_what_is_shown(
    snapshot: ProcessSnapshot,
    monitored: Seq<EntryView>,
)
    requires
        is_snapshot_of(snapshot, monitored),
    ensures
        snapshot.total_memory_bytes == memory_total(entry_views(snapshot.entries@)),
{
    let shown = entry_views(snapshot.entries@);
    lemma_sorted_is_rearranged(shown, monitored, category_then_name());
    lemma_memory_total_rearranged(shown, monitored);
}

/// In a fresh snapshot categories follow one another: language servers, then terminals, then the
/// editor.
pub proof fn law_snapshot_is_grouped(
    snapshot: ProcessSnapshot,
    monitored: Seq<EntryView>,
    i: int,
    j: int,
)
    requires
        is_snapshot_of(snapshot, monitored),
        0 <= i < j < snapshot.entries@.len(),
    ensures
        snapshot.entries@[i].category.spec_rank() <= snapshot.entries@[j].category.spec_rank(),
{
    let shown = entry_views(snapshot.entries@);
    lemma_category_then_name_ranks(monitored);
    law_sorted_is_in_order(shown, monitored, category_then_name(), i, j);
    assert(shown[i].category == snapshot.entries@[i].category);
    assert(shown[j].category == snapshot.entries@[j].category);
}

/// In a fresh snapshot no category is headed twice.
pub proof fn law_snapshot_has_one_group_per_category(
    snapshot: ProcessSnapshot,
    monitored: Seq<EntryView>,
    i: int,
    j: int,
)
    requires
        is_snapshot_of(snapshot, monitored),
        0 <= i < j < snapshot.entries@.len(),
        starts_group(entry_views(snapshot.entries@), i),
        starts_group(entry_views(snapshot.entries@), j),
    ensures
        snapshot.entries@[i].category != snapshot.entries@[j].category,
{
    let shown = entry_views(snapshot.entries@);
    assert(shown[j - 1].category == snapshot.entries@[j - 1].category);
    assert(shown[j].category == snapshot.entries@[j].category);
    law_snapshot_is_grouped(snapshot, monitored, j - 1, j);
    if i < j - 1 {
        law_snapshot_is_grouped(snapshot, monitored, i, j - 1);
    }
}

/// A fresh snapshot ends with the editor itself.
pub proof fn law_snapshot_ends_with_the_editor(
    snapshot: ProcessSnapshot,
    table: Map<u32, ProcessInfo>,
    own_pid: u32,
    servers: Seq<LanguageServerStatus>,
    terminals: Seq<Option<TerminalStatus>>,
)
    requires
        is_snapshot_of(snapshot, monitored_entries(table, own_pid, servers, terminals)),
    ensures
        snapshot.entries@.len() > 0,
        entry_views(snapshot.entries@).last() == main_entry(table, own_pid),
{
    let shown = entry_views(snapshot.entries@);
    let monitored = monitored_entries(table, own_pid, servers, terminals);
    let places = choose|places: Seq<int>| #[trigger]
        is_arrangement(places, monitored.len()) && shown == picked(monitored, places)
            && lists_in_order(places, monitored, category_then_name());
    lemma_arrangement_covers(places, monitored.len(), 0);
    let k = choose|k: int| 0 <= k < places.len() && #[trigger] places[k] == 0;
    assert(monitored[0] == main_entry(table, own_pid));
    if k < places.len() - 1 {
        let last = places.len() - 1;
        assert(goes_first(monitored, category_then_name(), places[k], places[last]));
        assert(places[last] != 0);
        lemma_only_the_editor_is_main(table, own_pid, servers, terminals, places[last]);
    }
}

proof fn lemma_terminal_categories(
    table: Map<u32, ProcessInfo>,
    terminals: Seq<Option<TerminalStatus>>,
    i: int,
)
    requires
        0 <= i < terminal_entries(table, terminals).len(),
    ensures
        terminal_entries(table, terminals)[i].category == ProcessCategory::Terminal,
    decreases terminals.len(),
{
    let earlier = terminal_entries(table, terminals.drop_last());
    if i < earlier.len() {
        lemma_terminal_categories(table, terminals.drop_last(), i);
    }
}

proof fn lemma_only_the_editor_is_main(
    table: Map<u32, ProcessInfo>,
    own_pid: u32,
    servers: Seq<LanguageServerStatus>,
    terminals: Seq<Option<TerminalStatus>>,
    i: int,
)
    requires
        0 < i < monitored_entries(table, own_pid, servers, terminals).len(),
    ensures
        monitored_entries(table, own_pid, servers, terminals)[i].category
            != ProcessCategory::MainProcess,
{
    if i > servers.len() {
        lemma_terminal_categories(table, terminals, i - 1 - servers.len());
    }
}

// The panel

/// Two clicks on the heading of the column that is sorted by change nothing.
pub proof fn law_two_clicks_change_nothing(state: ResourceMonitorView)
    ensures
        toggled(toggled(state, state.sort_column), state.sort_column) == state,
{
}

/// A click on another heading sorts by that column, largest first, whatever the state.
pub proof fn law_new_column_starts_descending(state: ResourceMonitorView, column: SortColumn)
    requires
        column != state.sort_column,
    ensures
        toggled(state, column).sort_column == column,
        !toggled(state, column).sort_ascending,
        toggled(toggled(state, column), column).sort_ascending,
{
}

/// One column is marked, and it is the one that is sorted by.
pub proof fn law_one_column_is_marked(state: ResourceMonitorView, column: SortColumn)
    ensures
        indicator(state, column).len() > 0 <==> column == state.sort_column,
{
    reveal_strlit("");
    reveal_strlit(" ▲");
    reveal_strlit(" ▼");
}

/// The two directions are marked differently.
pub proof fn law_directions_are_told_apart(state: ResourceMonitorView)
    ensures
        indicator(toggled(state, state.sort_column), state.sort_column) != indicator(
            state,
            state.sort_column,
        ),
{
    reveal_strlit(" ▲");
    reveal_strlit(" ▼");
    assert(" ▲"@[1] != " ▼"@[1]);
}

// The list and the report

/// The rows among some items, in their order.
pub open spec fn rows_among(items: Seq<ItemView>) -> Seq<RowView>
    decreases items.len(),
{
    if items.len() == 0 {
        Seq::empty()
    } else {
        match items.last() {
            ItemView::Row(row) => rows_among(items.drop_last()).push(row),
            _ => rows_among(items.drop_last()),
        }
    }
}

/// The category of the last heading among some items.
pub open spec fn last_heading(items: Seq<ItemView>) -> Option<ProcessCategory>
    decreases items.len(),
{
    if items.len() == 0 {
        None
    } else {
        match items.last() {
            ItemView::Heading(category) => Some(category),
            _ => last_heading(items.drop_last()),
        }
    }
}

/// The list has one row for every entry, in the order of the entries.
pub proof fn law_list_shows_every_entry(entries: Seq<EntryView>)
    ensures
        rows_among(list_of(entries)) == Seq::new(
            entries.len(),
            |i: int| row_of(entries[i], i as nat),
        ),
{
    if entries.len() == 0 {
        let items = list_of(entries);
        reveal_with_fuel(rows_among, 2);
        assert(rows_among(items) =~= Seq::new(
            entries.len(),
            |i: int| row_of(entries[i], i as nat),
        ));
    } else {
        lemma_grouped_rows(entries);
    }
}

/// Every row of the list stands under the heading of its category.
pub proof fn law_rows_stand_under_their_category(entries: Seq<EntryView>, k: int)
    requires
        0 <= k < list_of(entries).len(),
        list_of(entries)[k] is Row,
    ensures
        ({
            let row = list_of(entries)[k]->Row_0;
            &&& row.index < entries.len()
            &&& row == row_of(entries[row.index as int], row.index)
            &&& last_heading(list_of(entries).take(k)) == Some(
                entries[row.index as int].category,
            )
        }),
    decreases entries.len(),
{
    let items = list_of(entries);
    if entries.len() > 0 {
        let fewer = entries.drop_last();
        let earlier = grouped_rows(fewer);
        let last = entries.len() - 1;
        if k < earlier.len() {
            assert(fewer.len() > 0);
            law_rows_stand_under_their_category(fewer, k);
            assert(items.take(k) =~= earlier.take(k));
        } else {
            assert(k == items.len() - 1);
            lemma_grouped_rows(fewer);
            if starts_group(entries, last) {
                assert(items.take(k).drop_last() =~= earlier);
                assert(items.take(k).last() == ItemView::Heading(entries[last].category));
            } else {
                assert(items.take(k) =~= earlier);
                assert(fewer.last() == entries[last - 1]);
            }
        }
    }
}

/// No heading stands without a row right below it.
pub proof fn law_headings_have_rows(entries: Seq<EntryView>, k: int)
    requires
        0 <= k < list_of(entries).len(),
        list_of(entries)[k] is Heading,
    ensures
        k + 1 < list_of(entries).len(),
        list_of(entries)[k + 1] is Row,
    decreases entries.len(),
{
    if entries.len() > 0 {
        let earlier = grouped_rows(entries.drop_last());
        if k < earlier.len() {
            assert(entries.drop_last().len() > 0);
            law_headings_have_rows(entries.drop_last(), k);
        }
    }
}

proof fn lemma_grouped_rows(entries: Seq<EntryView>)
    ensures
        rows_among(grouped_rows(entries)) == Seq::new(
            entries.len(),
            |i: int| row_of(entries[i], i as nat),
        ),
        last_heading(grouped_rows(entries)) == (if entries.len() == 0 {
            None
        } else {
            Some(entries.last().category)
        }),
    decreases entries.len(),
{
    let expected = Seq::new(entries.len(), |i: int| row_of(entries[i], i as nat));
    reveal_with_fuel(rows_among, 3);
    reveal_with_fuel(last_heading, 3);
    if entries.len() == 0 {
        assert(expected =~= Seq::empty());
    } else {
        let fewer = entries.drop_last();
        let last = entries.len() - 1;
        lemma_grouped_rows(fewer);
        let items = grouped_rows(entries);
        let above = items.drop_last();
        if starts_group(entries, last) {
            assert(above.drop_last() =~= grouped_rows(fewer));
            assert(above.last() == ItemView::Heading(entries[last].category));
        } else {
            assert(above =~= grouped_rows(fewer));
            assert(fewer.last() == entries[last - 1]);
        }
        assert(rows_among(items) =~= expected);
    }
}

/// What the report has for one item of the list of `entries`.
pub open spec fn item_lines(item: ItemView, entries: Seq<EntryView>) -> Seq<char> {
    match item {
        ItemView::Heading(category) => heading_line(category),
        ItemView::Row(row) => entry_line(entries[row.index as int]),
        ItemView::Placeholder => Seq::empty(),
    }
}

/// What the report has for the items of the list of `entries`.
pub open spec fn lines_of_items(items: Seq<ItemView>, entries: Seq<EntryView>) -> Seq<char>
    decreases items.len(),
{
    if items.len() == 0 {
        Seq::empty()
    } else {
        lines_of_items(items.drop_last(), entries) + item_lines(items.last(), entries)
    }
}

/// The report follows the list: a heading for every heading, and a line for every row.
pub proof fn law_report_follows_the_list(entries: Seq<EntryView>)
    ensures
        entry_lines(entries) == lines_of_items(list_of(entries), entries),
{
    if entries.len() == 0 {
        let items = list_of(entries);
        reveal_with_fuel(lines_of_items, 2);
        assert(lines_of_items(items, entries) =~= Seq::empty());
    } else {
        assert(entries =~= entries.take(entries.len() as int));
        lemma_report_follows_rows(entries, entries);
    }
}

proof fn lemma_report_follows_rows(some: Seq<EntryView>, entries: Seq<EntryView>)
    requires
        some.len() <= entries.len(),
        some == entries.take(some.len() as int),
    ensures
        entry_lines(some) == lines_of_items(grouped_rows(some), entries),
    decreases some.len(),
{
    if some.len() > 0 {
        let fewer = some.drop_last();
        let last = some.len() - 1;
        assert(fewer =~= entries.take(fewer.len() as int));
        lemma_report_follows_rows(fewer, entries);
        reveal_with_fuel(lines_of_items, 3);
        let items = grouped_rows(some);
        let above = items.drop_last();
        assert(items.last() == ItemView::Row(row_of(some[last], last as nat)));
        assert(some[last] == entries[last]);
        if starts_group(some, last) {
            assert(above.drop_last() =~= grouped_rows(fewer));
            assert(above.last() == ItemView::Heading(some[last].category));
        } else {
            assert(above =~= grouped_rows(fewer));
        }
        assert(entry_lines(some) =~= lines_of_items(items, entries));
    }
}

// Numbers

/// Rounding goes to a nearest whole number.
pub proof fn law_rounding_is_nearest(n: nat, d: nat)
    requires
        0 < d,
    ensures
        2 * (round_half_even(n, d) * d) <= 2 * n + d,
        2 * n <= 2 * (round_half_even(n, d) * d) + d,
{
    vstd::arithmetic::div_mod::lemma_fundamental_div_mod(n as int, d as int);
    let below = n / d;
    assert(below * d == d * below) by (nonlinear_arith);
    assert((below + 1) * d == below * d + d) by (nonlinear_arith);
}

/// Sizes below `2^53` bytes are shown without first being rounded.
pub proof fn law_small_sizes_are_exact(bytes: nat)
    requires
        bytes < 0x20_0000_0000_0000,
    ensures
        nearest_double(bytes) == bytes,
{
    vstd::arithmetic::power2::lemma2_to64();
    assert(nearest(bytes, 0x20_0000_0000_0000) == round_half_even(bytes, 1) * 1);
}

proof fn lemma_decimal_injective(m: nat, n: nat)
    requires
        decimal(m) == decimal(n),
    ensures
        m == n,
    decreases m,
{
    assert(decimal(m).last() == digit_char(m % 10));
    assert(decimal(n).last() == digit_char(n % 10));
    assert(m % 10 == n % 10);
    if m >= 10 && n >= 10 {
        assert(decimal(m).drop_last() =~= decimal(m / 10));
        assert(decimal(n).drop_last() =~= decimal(n / 10));
        lemma_decimal_injective(m / 10, n / 10);
    } else if m >= 10 {
        assert(decimal(m / 10).len() > 0);
    } else if n >= 10 {
        assert(decimal(n / 10).len() > 0);
    }
}

/// Different processes are shown with different identifiers, and none as if it had none.
pub proof fn law_pids_are_told_apart(a: Option<u32>, b: Option<u32>)
    requires
        pid_text(a) == pid_text(b),
    ensures
        a == b,
{
    reveal_strlit("—");
    if a is Some && b is Some {
        lemma_decimal_injective(a->0 as nat, b->0 as nat);
    } else if a is Some {
        assert(decimal(a->0 as nat).last() == digit_char(a->0 as nat % 10));
    } else if b is Some {
        assert(decimal(b->0 as nat).last() == digit_char(b->0 as nat % 10));
    }
}

/// Two CPU usages can be added in either order.
pub proof fn law_cpu_sum_commutes(a: CpuPercent, b: CpuPercent, sum: CpuPercent)
    requires
        adds_to(a, b, sum),
    ensures
        adds_to(b, a, sum),
{
}

} // verus!
