//! The state of the monitor panel: which column it sorts by, and in which direction.
use crate::entry::{
    arrange, entry_views, lemma_keys_sort_items, EntryView, ProcessEntry, ProcessSnapshot,
};
use crate::names::{
    lemma_text_before_asymmetric, lemma_text_before_splits, lowercase, text_before, FoldedName,
};
use crate::order::{
    as_places, is_arrangement, ranks, rearranges, sorts_stably, stable_order, SortKey,
};
use crate::percent::CpuPercent;
use vstd::prelude::*;

verus! {

/// A column that the panel can sort by.
#[derive(Debug, Clone, Copy, PartialEq, Eq, Structural)]
pub enum SortColumn {
    Name,
    Pid,
    Cpu,
    Memory,
}

// The order of a column

/// No process identifier comes before every process identifier.
pub open spec fn pid_before(a: Option<u32>, b: Option<u32>) -> bool {
    match (a, b) {
        (None, Some(_)) => true,
        (Some(a), Some(b)) => a < b,
        _ => false,
    }
}

/// The ascending order of a column.
pub open spec fn column_ascends(column: SortColumn, a: EntryView, b: EntryView) -> bool {
    match column {
        SortColumn::Name => text_before(lowercase(a.name), lowercase(b.name)),
        SortColumn::Pid => pid_before(a.pid, b.pid),
        SortColumn::Cpu => a.cpu_percent.below(b.cpu_percent),
        SortColumn::Memory => a.memory_bytes < b.memory_bytes,
    }
}

/// The order of a column in either direction.
pub open spec fn column_order(column: SortColumn, ascending: bool) -> spec_fn(
    EntryView,
    EntryView,
) -> bool {
    |a: EntryView, b: EntryView|
        if ascending {
            column_ascends(column, a, b)
        } else {
            column_ascends(column, b, a)
        }
}

/// The entries have something to be sorted by: where the column is that of CPU usage, every usage
/// is a number.
pub open spec fn sortable(column: SortColumn, entries: Seq<EntryView>) -> bool {
    column == SortColumn::Cpu ==> forall|i: int|
        0 <= i < entries.len() ==> !(#[trigger] entries[i]).cpu_percent.spec_is_nan()
}

/// Every column ranks the entries that can be sorted by it, in either direction.
pub proof fn lemma_column_ranks(column: SortColumn, ascending: bool, entries: Seq<EntryView>)
    requires
        sortable(column, entries),
    ensures
        ranks(entries, column_order(column, ascending)),
{
    let before = column_order(column, ascending);
    assert forall|i: int, j: int|
        0 <= i < entries.len() && 0 <= j < entries.len() && #[trigger] before(
            entries[i],
            entries[j],
        ) implies !before(entries[j], entries[i]) by {
        let (a, b) = if ascending {
            (entries[i], entries[j])
        } else {
            (entries[j], entries[i])
        };
        if column == SortColumn::Name {
            lemma_text_before_asymmetric(lowercase(a.name), lowercase(b.name));
        }
    }
    assert forall|i: int, j: int, k: int|
        0 <= i < entries.len() && 0 <= j < entries.len() && 0 <= k < entries.len()
            && #[trigger] before(entries[i], entries[k]) implies #[trigger] before(
        entries[i],
        entries[j],
    ) || before(entries[j], entries[k]) by {
        let (a, c) = if ascending {
            (entries[i], entries[k])
        } else {
            (entries[k], entries[i])
        };
        if column == SortColumn::Name {
            lemma_text_before_splits(
                lowercase(a.name),
                lowercase(entries[j].name),
                lowercase(c.name),
            );
        }
    }
}

// Sort keys

/// What an entry shows in one column.
enum ColumnValue {
    Name(FoldedName),
    Pid(Option<u32>),
    Cpu(CpuPercent),
    Memory(u64),
}

impl ColumnValue {
    spec fn ascends(self, other: ColumnValue) -> bool {
        match (self, other) {
            (ColumnValue::Name(a), ColumnValue::Name(b)) => text_before(a@, b@),
            (ColumnValue::Pid(a), ColumnValue::Pid(b)) => pid_before(a, b),
            (ColumnValue::Cpu(a), ColumnValue::Cpu(b)) => a.below(b),
            (ColumnValue::Memory(a), ColumnValue::Memory(b)) => a < b,
            _ => false,
        }
    }

    spec fn shows(self, column: SortColumn, entry: EntryView) -> bool {
        match (column, self) {
            (SortColumn::Name, ColumnValue::Name(name)) => name@ == lowercase(entry.name),
            (SortColumn::Pid, ColumnValue::Pid(pid)) => pid == entry.pid,
            (SortColumn::Cpu, ColumnValue::Cpu(cpu)) => cpu == entry.cpu_percent,
            (SortColumn::Memory, ColumnValue::Memory(memory)) => memory == entry.memory_bytes,
            _ => false,
        }
    }

    fn new(column: SortColumn, entry: &ProcessEntry) -> (value: ColumnValue)
        ensures
            value.shows(column, entry@),
    {
        match column {
            SortColumn::Name => ColumnValue::Name(FoldedName::new(entry.name.as_str())),
            SortColumn::Pid => ColumnValue::Pid(entry.pid),
            SortColumn::Cpu => ColumnValue::Cpu(entry.cpu_percent),
            SortColumn::Memory => ColumnValue::Memory(entry.memory_bytes),
        }
    }

    fn is_ascending(&self, other: &ColumnValue) -> (r: bool)
        ensures
            r == self.ascends(*other),
    {
        match (self, other) {
            (ColumnValue::Name(a), ColumnValue::Name(b)) => a.is_before(b),
            (ColumnValue::Pid(a), ColumnValue::Pid(b)) => match (a, b) {
                (None, Some(_)) => true,
                (Some(a), Some(b)) => *a < *b,
                _ => false,
            },
            (ColumnValue::Cpu(a), ColumnValue::Cpu(b)) => a.is_below(*b),
            (ColumnValue::Memory(a), ColumnValue::Memory(b)) => *a < *b,
            _ => false,
        }
    }
}

/// What an entry shows in the column that is sorted by, with the direction.
struct ColumnKey {
    value: ColumnValue,
    ascending: bool,
}

impl SortKey for ColumnKey {
    closed spec fn precedes(self, other: ColumnKey) -> bool {
        if self.ascending {
            self.value.ascends(other.value)
        } else {
            other.value.ascends(self.value)
        }
    }

    fn is_before(&self, other: &ColumnKey) -> (r: bool) {
        if self.ascending {
            self.value.is_ascending(&other.value)
        } else {
            other.value.is_ascending(&self.value)
        }
    }
}

// The panel

/// The state of the monitor panel.
#[derive(Debug)]
pub struct ResourceMonitorView {
    pub sort_column: SortColumn,
    pub sort_ascending: bool,
}

/// `sorted` is what the panel shows of `entries`: the same entries, sorted by the chosen column in
/// the chosen direction wherever that column ranks them.
pub open spec fn shows_sorted(
    state: ResourceMonitorView,
    sorted: Seq<EntryView>,
    entries: Seq<EntryView>,
) -> bool {
    &&& rearranges(sorted, entries)
    &&& ranks(entries, column_order(state.sort_column, state.sort_ascending)) ==> sorts_stably(
        sorted,
        entries,
        column_order(state.sort_column, state.sort_ascending),
    )
}

/// The state after a click on the heading of `column`.
pub open spec fn toggled(state: ResourceMonitorView, column: SortColumn) -> ResourceMonitorView {
    if state.sort_column == column {
        ResourceMonitorView { sort_ascending: !state.sort_ascending, ..state }
    } else {
        ResourceMonitorView { sort_column: column, sort_ascending: false }
    }
}

/// The mark behind the heading of `column`.
pub open spec fn indicator(state: ResourceMonitorView, column: SortColumn) -> Seq<char> {
    if state.sort_column != column {
        ""@
    } else if state.sort_ascending {
        " ▲"@
    } else {
        " ▼"@
    }
}

/// The title of a column.
pub open spec fn column_title(column: SortColumn) -> Seq<char> {
    match column {
        SortColumn::Name => "Name"@,
        SortColumn::Pid => "PID"@,
        SortColumn::Cpu => "CPU"@,
        SortColumn::Memory => "Memory"@,
    }
}

impl ResourceMonitorView {
    /// A panel that shows the busiest processes first.
    pub fn new() -> (view: ResourceMonitorView)
        ensures
            view.sort_column == SortColumn::Cpu,
            !view.sort_ascending,
    {
        ResourceMonitorView { sort_column: SortColumn::Cpu, sort_ascending: false }
    }

    /// The entries of `snapshot`, sorted by the chosen column in the chosen direction.
    ///
    /// Entries that show the same keep their order. Where some CPU usage is not a number, sorting
    /// by CPU usage gives the entries in some order.
    pub fn sorted_entries(&self, snapshot: &ProcessSnapshot) -> (sorted: Vec<ProcessEntry>)
        ensures
            shows_sorted(*self, entry_views(sorted@), entry_views(snapshot.entries@)),
            sortable(self.sort_column, entry_views(snapshot.entries@)) ==> sorts_stably(
                entry_views(sorted@),
                entry_views(snapshot.entries@),
                column_order(self.sort_column, self.sort_ascending),
            ),
    {
        let entries = &snapshot.entries;
        let mut keys: Vec<ColumnKey> = Vec::new();
        let mut i: usize = 0;
        while i < entries.len()
            invariant
                i <= entries.len(),
                entries == &snapshot.entries,
                keys.len() == i,
                forall|k: int|
                    0 <= k < i ==> (#[trigger] keys@[k]).ascending == self.sort_ascending
                        && keys@[k].value.shows(self.sort_column, entries@[k]@),
            decreases entries.len() - i,
        {
            keys.push(
                ColumnKey {
                    value: ColumnValue::new(self.sort_column, &entries[i]),
                    ascending: self.sort_ascending,
                },
            );
            i = i + 1;
        }
        let places = stable_order(&keys);
        proof {
            let items = entry_views(entries@);
            let listed = as_places(places@);
            assert(is_arrangement(listed, items.len()));
            if sortable(self.sort_column, items) {
                lemma_column_ranks(self.sort_column, self.sort_ascending, items);
            }
            if ranks(items, column_order(self.sort_column, self.sort_ascending)) {
                lemma_keys_sort_items(
                    listed,
                    keys@,
                    items,
                    column_order(self.sort_column, self.sort_ascending),
                );
            }
            assert forall|k: int| 0 <= k < places.len() implies #[trigger] places@[k]
                < entries.len() by {
                assert(listed[k] < items.len());
            }
        }
        arrange(entries, &places)
    }

    /// Handles a click on the heading of `column`: the direction turns when the panel already
    /// sorts by it, and else the panel starts to sort by it, largest first.
    pub fn toggle_sort(&mut self, column: SortColumn)
        ensures
            *final(self) == toggled(*old(self), column),
    {
        if self.sort_column == column {
            self.sort_ascending = !self.sort_ascending;
        } else {
            self.sort_column = column;
            self.sort_ascending = false;
        }
    }

    /// The mark that shows the direction behind the heading of the column that is sorted by.
    pub fn sort_indicator(&self, column: SortColumn) -> (mark: &'static str)
        ensures
            mark@ == indicator(*self, column),
    {
        if self.sort_column == column {
            if self.sort_ascending {
                " ▲"
            } else {
                " ▼"
            }
        } else {
            ""
        }
    }

    /// The heading of `column`.
    pub fn column_heading(&self, column: SortColumn) -> (heading: String)
        ensures
            heading@ == column_title(column) + indicator(*self, column),
    {
        let title = match column {
            SortColumn::Name => "Name",
            SortColumn::Pid => "PID",
            SortColumn::Cpu => "CPU",
            SortColumn::Memory => "Memory",
        };
        title.to_string().concat(self.sort_indicator(column))
    }
}

} // verus!
