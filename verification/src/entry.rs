//! The entries of a snapshot.
use crate::names::{
    lemma_text_before_asymmetric, lemma_text_before_splits, lowercase, text_before, FoldedName,
};
use crate::order::{
    as_places, goes_first, is_arrangement, key_order, lemma_arrangement_covers, lists_in_order,
    picked, ranks, rearranges, sorts_stably, stable_order, SortKey,
};
use crate::percent::CpuPercent;
use vstd::prelude::*;

verus! {

/// What a monitored process is to the editor.
#[derive(Debug, Clone, Copy, PartialEq, Eq, PartialOrd, Ord, Structural)]
pub enum ProcessCategory {
    LanguageServer,
    Terminal,
    MainProcess,
}

impl ProcessCategory {
    /// The heading of the category.
    pub open spec fn spec_label(self) -> Seq<char> {
        match self {
            ProcessCategory::LanguageServer => "Language Servers"@,
            ProcessCategory::Terminal => "Terminals"@,
            ProcessCategory::MainProcess => "Zed"@,
        }
    }

    /// The place of the category among the others.
    pub open spec fn spec_rank(self) -> u8 {
        match self {
            ProcessCategory::LanguageServer => 0,
            ProcessCategory::Terminal => 1,
            ProcessCategory::MainProcess => 2,
        }
    }

    /// The heading of the category.
    pub fn label(self) -> (label: &'static str)
        ensures
            label@ == self.spec_label(),
    {
        match self {
            ProcessCategory::LanguageServer => "Language Servers",
            ProcessCategory::Terminal => "Terminals",
            ProcessCategory::MainProcess => "Zed",
        }
    }

    fn rank(self) -> (rank: u8)
        ensures
            rank == self.spec_rank(),
    {
        match self {
            ProcessCategory::LanguageServer => 0,
            ProcessCategory::Terminal => 1,
            ProcessCategory::MainProcess => 2,
        }
    }
}

/// A monitored process.
#[derive(Debug)]
pub struct ProcessEntry {
    pub name: String,
    pub context: Option<String>,
    pub category: ProcessCategory,
    pub pid: Option<u32>,
    pub cpu_percent: CpuPercent,
    pub memory_bytes: u64,
}

/// What an entry says.
pub ghost struct EntryView {
    pub name: Seq<char>,
    pub context: Option<Seq<char>>,
    pub category: ProcessCategory,
    pub pid: Option<u32>,
    pub cpu_percent: CpuPercent,
    pub memory_bytes: nat,
}

/// An optional text in ghost code.
pub open spec fn text_view(text: Option<String>) -> Option<Seq<char>> {
    match text {
        Some(text) => Some(text@),
        None => None,
    }
}

impl View for ProcessEntry {
    type V = EntryView;

    open spec fn view(&self) -> EntryView {
        EntryView {
            name: self.name@,
            context: text_view(self.context),
            category: self.category,
            pid: self.pid,
            cpu_percent: self.cpu_percent,
            memory_bytes: self.memory_bytes as nat,
        }
    }
}

/// What a list of entries says.
pub open spec fn entry_views(entries: Seq<ProcessEntry>) -> Seq<EntryView> {
    entries.map_values(|entry: ProcessEntry| entry@)
}

/// A copy of an optional text.
pub fn copy_text(text: &Option<String>) -> (copy: Option<String>)
    ensures
        copy == *text,
{
    match text {
        Some(text) => Some(text.clone()),
        None => None,
    }
}

impl Clone for ProcessEntry {
    fn clone(&self) -> (copy: ProcessEntry)
        ensures
            copy == *self,
    {
        ProcessEntry {
            name: self.name.clone(),
            context: copy_text(&self.context),
            category: self.category,
            pid: self.pid,
            cpu_percent: self.cpu_percent,
            memory_bytes: self.memory_bytes,
        }
    }
}

/// The memory of all entries together.
pub open spec fn memory_total(entries: Seq<EntryView>) -> nat
    decreases entries.len(),
{
    if entries.len() == 0 {
        0
    } else {
        memory_total(entries.drop_last()) + entries.last().memory_bytes
    }
}

/// Any entry can be the one that is counted last.
proof fn lemma_memory_total_remove(entries: Seq<EntryView>, i: int)
    requires
        0 <= i < entries.len(),
    ensures
        memory_total(entries) == memory_total(entries.remove(i)) + entries[i].memory_bytes,
    decreases entries.len(),
{
    if i < entries.len() - 1 {
        lemma_memory_total_remove(entries.drop_last(), i);
        assert(entries.drop_last().remove(i) =~= entries.remove(i).drop_last());
    } else {
        assert(entries.remove(i) =~= entries.drop_last());
    }
}

/// The sum does not depend on the order of the entries.
pub proof fn lemma_memory_total_rearranged(arranged: Seq<EntryView>, entries: Seq<EntryView>)
    requires
        rearranges(arranged, entries),
    ensures
        memory_total(arranged) == memory_total(entries),
{
    let places = choose|places: Seq<int>| #[trigger]
        is_arrangement(places, entries.len()) && arranged == picked(entries, places);
    lemma_memory_total_picked(entries, places);
}

proof fn lemma_memory_total_picked(entries: Seq<EntryView>, places: Seq<int>)
    requires
        is_arrangement(places, entries.len()),
    ensures
        memory_total(picked(entries, places)) == memory_total(entries),
    decreases entries.len(),
{
    if entries.len() > 0 {
        let last = entries.len() - 1;
        lemma_arrangement_covers(places, entries.len(), last);
        let k = choose|k: int| 0 <= k < places.len() && #[trigger] places[k] == last;
        let rest = places.remove(k);
        assert(is_arrangement(rest, last as nat)) by {
            assert forall|i: int| 0 <= i < rest.len() implies 0 <= #[trigger] rest[i] < last by {
                let from = if i < k {
                    i
                } else {
                    i + 1
                };
                assert(rest[i] == places[from]);
                assert(places[from] != places[k]);
            }
        }
        lemma_memory_total_picked(entries.drop_last(), rest);
        lemma_memory_total_remove(picked(entries, places), k);
        assert(picked(entries, places).remove(k) =~= picked(entries.drop_last(), rest));
    }
}

/// No entry has more memory than all together.
pub proof fn lemma_memory_total_bounds(entries: Seq<EntryView>, i: int)
    requires
        0 <= i < entries.len(),
    ensures
        entries[i].memory_bytes <= memory_total(entries),
{
    lemma_memory_total_remove(entries, i);
}

/// The CPU usages of the entries, in their order.
pub open spec fn cpu_usages(entries: Seq<EntryView>) -> Seq<CpuPercent> {
    entries.map_values(|entry: EntryView| entry.cpu_percent)
}

/// What is known of the monitored processes at one time.
#[derive(Debug)]
pub struct ProcessSnapshot {
    pub entries: Vec<ProcessEntry>,
    pub total_cpu_percent: CpuPercent,
    pub total_memory_bytes: u64,
}

impl Default for ProcessSnapshot {
    /// The snapshot of no process.
    fn default() -> (snapshot: ProcessSnapshot)
        ensures
            snapshot.entries@ == Seq::<ProcessEntry>::empty(),
            snapshot.total_cpu_percent.bits == 0,
            snapshot.total_memory_bytes == 0,
    {
        ProcessSnapshot {
            entries: Vec::new(),
            total_cpu_percent: CpuPercent { bits: 0 },
            total_memory_bytes: 0,
        }
    }
}

// Rearranging

/// Keys that order as the items do sort the items.
pub proof fn lemma_keys_sort_items<K: SortKey, A>(
    places: Seq<int>,
    keys: Seq<K>,
    items: Seq<A>,
    before: spec_fn(A, A) -> bool,
)
    requires
        keys.len() == items.len(),
        forall|i: int, j: int|
            #![trigger keys[i], keys[j]]
            0 <= i < items.len() && 0 <= j < items.len() ==> keys[i].precedes(keys[j]) == before(
                items[i],
                items[j],
            ),
        ranks(items, before),
        is_arrangement(places, items.len()),
        ranks(keys, key_order::<K>()) ==> lists_in_order(places, keys, key_order::<K>()),
    ensures
        lists_in_order(places, items, before),
{
    let order = key_order::<K>();
    assert forall|i: int, j: int|
        0 <= i < keys.len() && 0 <= j < keys.len() && #[trigger] order(
            keys[i],
            keys[j],
        ) implies !order(keys[j], keys[i]) by {
        assert(before(items[i], items[j]));
    }
    assert forall|i: int, j: int, k: int|
        0 <= i < keys.len() && 0 <= j < keys.len() && 0 <= k < keys.len() && #[trigger] order(
            keys[i],
            keys[k],
        ) implies #[trigger] order(keys[i], keys[j]) || order(keys[j], keys[k]) by {
        assert(before(items[i], items[k]));
        assert(before(items[i], items[j]) || before(items[j], items[k]));
    }
    assert(ranks(keys, order));
    assert forall|i: int, j: int| 0 <= i < j < places.len() implies #[trigger] goes_first(
        items,
        before,
        places[i],
        places[j],
    ) by {
        assert(goes_first(keys, order, places[i], places[j]));
    }
}

/// Copies of the entries at the given places, in the order of the places.
pub fn arrange(entries: &Vec<ProcessEntry>, places: &Vec<usize>) -> (arranged: Vec<ProcessEntry>)
    requires
        forall|i: int| 0 <= i < places.len() ==> #[trigger] places@[i] < entries.len(),
    ensures
        entry_views(arranged@) == picked(entry_views(entries@), as_places(places@)),
{
    let mut arranged: Vec<ProcessEntry> = Vec::new();
    let mut i: usize = 0;
    while i < places.len()
        invariant
            i <= places.len(),
            forall|k: int| 0 <= k < places.len() ==> #[trigger] places@[k] < entries.len(),
            arranged.len() == i,
            forall|k: int| 0 <= k < i ==> #[trigger] arranged@[k] == entries@[places@[k] as int],
        decreases places.len() - i,
    {
        arranged.push(entries[places[i]].clone());
        i = i + 1;
    }
    assert(entry_views(arranged@) =~= picked(entry_views(entries@), as_places(places@)));
    arranged
}

// The order of a fresh snapshot

/// By category, then by name without regard to case.
pub open spec fn category_then_name() -> spec_fn(EntryView, EntryView) -> bool {
    |a: EntryView, b: EntryView|
        {
            ||| a.category.spec_rank() < b.category.spec_rank()
            ||| a.category == b.category && text_before(lowercase(a.name), lowercase(b.name))
        }
}

/// The order by category and name ranks any entries.
pub proof fn lemma_category_then_name_ranks(entries: Seq<EntryView>)
    ensures
        ranks(entries, category_then_name()),
{
    let before = category_then_name();
    assert forall|i: int, j: int|
        0 <= i < entries.len() && 0 <= j < entries.len() && #[trigger] before(
            entries[i],
            entries[j],
        ) implies !before(entries[j], entries[i]) by {
        if text_before(lowercase(entries[i].name), lowercase(entries[j].name)) {
            lemma_text_before_asymmetric(lowercase(entries[i].name), lowercase(entries[j].name));
        }
    }
    assert forall|i: int, j: int, k: int|
        0 <= i < entries.len() && 0 <= j < entries.len() && 0 <= k < entries.len()
            && #[trigger] before(entries[i], entries[k]) implies #[trigger] before(
        entries[i],
        entries[j],
    ) || before(entries[j], entries[k]) by {
        if text_before(lowercase(entries[i].name), lowercase(entries[k].name)) {
            lemma_text_before_splits(
                lowercase(entries[i].name),
                lowercase(entries[j].name),
                lowercase(entries[k].name),
            );
        }
    }
}

/// A category and a name, as a key to sort by.
struct CategoryAndName {
    rank: u8,
    name: FoldedName,
}

impl SortKey for CategoryAndName {
    closed spec fn precedes(self, other: CategoryAndName) -> bool {
        ||| self.rank < other.rank
        ||| self.rank == other.rank && text_before(self.name@, other.name@)
    }

    fn is_before(&self, other: &CategoryAndName) -> (r: bool) {
        self.rank < other.rank || (self.rank == other.rank && self.name.is_before(&other.name))
    }
}

/// The entries sorted by category, then by name without regard to case.
pub fn sort_by_category_and_name(entries: &Vec<ProcessEntry>) -> (sorted: Vec<ProcessEntry>)
    ensures
        sorts_stably(entry_views(sorted@), entry_views(entries@), category_then_name()),
{
    let mut keys: Vec<CategoryAndName> = Vec::new();
    let mut i: usize = 0;
    while i < entries.len()
        invariant
            i <= entries.len(),
            keys.len() == i,
            forall|k: int|
                0 <= k < i ==> (#[trigger] keys@[k]).rank == entries@[k].category.spec_rank()
                    && keys@[k].name@ == lowercase(entries@[k].name@),
        decreases entries.len() - i,
    {
        keys.push(
            CategoryAndName {
                rank: entries[i].category.rank(),
                name: FoldedName::new(entries[i].name.as_str()),
            },
        );
        i = i + 1;
    }
    let places = stable_order(&keys);
    proof {
        let items = entry_views(entries@);
        let listed = as_places(places@);
        lemma_category_then_name_ranks(items);
        lemma_keys_sort_items(listed, keys@, items, category_then_name());
        assert forall|k: int| 0 <= k < places.len() implies #[trigger] places@[k]
            < entries.len() by {
            assert(listed[k] < items.len());
        }
    }
    arrange(entries, &places)
}

} // verus!
