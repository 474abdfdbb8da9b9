//! What the panel lists.
use crate::entry::{
    entry_views, text_view, EntryView, ProcessCategory, ProcessEntry, ProcessSnapshot,
};
use crate::percent::CpuPercent;
use crate::report::{format_pid, pid_text, starts_group};
use crate::text::{bytes_text, format_bytes};
use crate::view::{shows_sorted, ResourceMonitorView};
use vstd::prelude::*;

verus! {

/// The colors that the panel gives to labels and icons.
#[derive(Debug, Clone, Copy, PartialEq, Eq, Structural)]
pub enum RowColor {
    Normal,
    Muted,
    Accent,
    Info,
    Warning,
    Error,
}

/// The icons of the rows.
#[derive(Debug, Clone, Copy, PartialEq, Eq, Structural)]
pub enum RowIcon {
    Server,
    FileCode,
    Terminal,
}

/// Memory above this many bytes is worth a warning: 500 mebibytes.
pub const MEMORY_WARNING: u64 = 524_288_000;

/// Memory above this many bytes is worth alarm: two gibibytes.
pub const MEMORY_ERROR: u64 = 2_147_483_648;

/// The color of a CPU usage.
pub open spec fn cpu_color(cpu: CpuPercent) -> RowColor {
    if cpu.above_whole(50) {
        RowColor::Error
    } else if cpu.above_whole(20) {
        RowColor::Warning
    } else {
        RowColor::Muted
    }
}

/// The color of a memory size.
pub open spec fn memory_color(memory: nat) -> RowColor {
    if memory > MEMORY_ERROR {
        RowColor::Error
    } else if memory > MEMORY_WARNING {
        RowColor::Warning
    } else {
        RowColor::Normal
    }
}

/// The icon of a category.
pub open spec fn category_icon(category: ProcessCategory) -> (RowIcon, RowColor) {
    match category {
        ProcessCategory::MainProcess => (RowIcon::Server, RowColor::Accent),
        ProcessCategory::LanguageServer => (RowIcon::FileCode, RowColor::Info),
        ProcessCategory::Terminal => (RowIcon::Terminal, RowColor::Normal),
    }
}

/// One row of the list.
#[derive(Debug)]
pub struct Row {
    pub index: usize,
    pub icon: RowIcon,
    pub icon_color: RowColor,
    pub name: String,
    /// The context in parentheses.
    pub context: Option<String>,
    pub pid: String,
    pub cpu: String,
    pub cpu_color: RowColor,
    pub memory: String,
    pub memory_color: RowColor,
}

/// What a row shows.
pub ghost struct RowView {
    pub index: nat,
    pub icon: RowIcon,
    pub icon_color: RowColor,
    pub name: Seq<char>,
    pub context: Option<Seq<char>>,
    pub pid: Seq<char>,
    pub cpu: Seq<char>,
    pub cpu_color: RowColor,
    pub memory: Seq<char>,
    pub memory_color: RowColor,
}

impl View for Row {
    type V = RowView;

    open spec fn view(&self) -> RowView {
        RowView {
            index: self.index as nat,
            icon: self.icon,
            icon_color: self.icon_color,
            name: self.name@,
            context: text_view(self.context),
            pid: self.pid@,
            cpu: self.cpu@,
            cpu_color: self.cpu_color,
            memory: self.memory@,
            memory_color: self.memory_color,
        }
    }
}

/// The row of `entry` at place `index`.
pub open spec fn row_of(entry: EntryView, index: nat) -> RowView {
    RowView {
        index,
        icon: category_icon(entry.category).0,
        icon_color: category_icon(entry.category).1,
        name: entry.name,
        context: match entry.context {
            Some(context) => Some("("@ + context + ")"@),
            None => None,
        },
        pid: pid_text(entry.pid),
        cpu: entry.cpu_percent.shown() + "%"@,
        cpu_color: cpu_color(entry.cpu_percent),
        memory: bytes_text(entry.memory_bytes),
        memory_color: memory_color(entry.memory_bytes),
    }
}

/// One item of the list.
#[derive(Debug)]
pub enum ListItem {
    /// The heading of a group of rows.
    Heading(ProcessCategory),
    Row(Row),
    /// Stands in for the rows while there are none.
    Placeholder,
}

/// What an item shows.
pub ghost enum ItemView {
    Heading(ProcessCategory),
    Row(RowView),
    Placeholder,
}

impl View for ListItem {
    type V = ItemView;

    open spec fn view(&self) -> ItemView {
        match *self {
            ListItem::Heading(category) => ItemView::Heading(category),
            ListItem::Row(row) => ItemView::Row(row@),
            ListItem::Placeholder => ItemView::Placeholder,
        }
    }
}

/// What a list shows.
pub open spec fn item_views(items: Seq<ListItem>) -> Seq<ItemView> {
    items.map_values(|item: ListItem| item@)
}

/// The rows of the entries, each group under the heading of its category.
pub open spec fn grouped_rows(entries: Seq<EntryView>) -> Seq<ItemView>
    decreases entries.len(),
{
    if entries.len() == 0 {
        Seq::empty()
    } else {
        let last = entries.len() - 1;
        let heading = if starts_group(entries, last) {
            seq![ItemView::Heading(entries[last].category)]
        } else {
            Seq::empty()
        };
        grouped_rows(entries.drop_last()) + heading + seq![
            ItemView::Row(row_of(entries[last], last as nat)),
        ]
    }
}

/// The whole list: the grouped rows, or a placeholder where there is none.
pub open spec fn list_of(entries: Seq<EntryView>) -> Seq<ItemView> {
    if entries.len() == 0 {
        seq![ItemView::Placeholder]
    } else {
        grouped_rows(entries)
    }
}

/// The text of the placeholder.
pub fn placeholder_text() -> (text: &'static str)
    ensures
        text@ == "Collecting process data…"@,
{
    "Collecting process data…"
}

/// The element identifier of the heading of a category.
pub fn heading_id(category: ProcessCategory) -> (id: &'static str)
    ensures
        id@ == (match category {
            ProcessCategory::LanguageServer => "cat-LanguageServer"@,
            ProcessCategory::Terminal => "cat-Terminal"@,
            ProcessCategory::MainProcess => "cat-MainProcess"@,
        }),
{
    match category {
        ProcessCategory::LanguageServer => "cat-LanguageServer",
        ProcessCategory::Terminal => "cat-Terminal",
        ProcessCategory::MainProcess => "cat-MainProcess",
    }
}

/// The row of `entry` at place `index`.
pub fn make_row(entry: &ProcessEntry, index: usize) -> (row: Row)
    ensures
        row@ == row_of(entry@, index as nat),
{
    let cpu_color = if entry.cpu_percent.is_above_fifty() {
        RowColor::Error
    } else if entry.cpu_percent.is_above_twenty() {
        RowColor::Warning
    } else {
        RowColor::Muted
    };
    let memory_color = if entry.memory_bytes > MEMORY_ERROR {
        RowColor::Error
    } else if entry.memory_bytes > MEMORY_WARNING {
        RowColor::Warning
    } else {
        RowColor::Normal
    };
    let (icon, icon_color) = match entry.category {
        ProcessCategory::MainProcess => (RowIcon::Server, RowColor::Accent),
        ProcessCategory::LanguageServer => (RowIcon::FileCode, RowColor::Info),
        ProcessCategory::Terminal => (RowIcon::Terminal, RowColor::Normal),
    };
    let context = match &entry.context {
        Some(context) => {
            let mut text = "(".to_string();
            text.append(context.as_str());
            text.append(")");
            Some(text)
        },
        None => None,
    };
    Row {
        index,
        icon,
        icon_color,
        name: entry.name.clone(),
        context,
        pid: format_pid(entry.pid),
        cpu: entry.cpu_percent.text().concat("%"),
        cpu_color,
        memory: format_bytes(entry.memory_bytes),
        memory_color,
    }
}

/// The list of the given entries, in their order.
pub fn make_list(entries: &Vec<ProcessEntry>) -> (items: Vec<ListItem>)
    ensures
        item_views(items@) == list_of(entry_views(entries@)),
{
    let mut items: Vec<ListItem> = Vec::new();
    let mut current_category: Option<ProcessCategory> = None;
    let mut i: usize = 0;
    let ghost views = entry_views(entries@);
    assert(item_views(items@) =~= grouped_rows(views.take(0)));
    while i < entries.len()
        invariant
            i <= entries.len(),
            views == entry_views(entries@),
            item_views(items@) == grouped_rows(views.take(i as int)),
            current_category == (if i == 0 {
                None
            } else {
                Some(views[i - 1].category)
            }),
        decreases entries.len() - i,
    {
        let entry = &entries[i];
        let ghost so_far = item_views(items@);
        let ghost next = views.take(i + 1);
        assert(next.drop_last() =~= views.take(i as int));
        let new_group = match current_category {
            Some(category) => category != entry.category,
            None => true,
        };
        if new_group {
            current_category = Some(entry.category);
            items.push(ListItem::Heading(entry.category));
            assert(item_views(items@) =~= so_far + seq![ItemView::Heading(entry.category)]);
        }
        assert(new_group == starts_group(next, i as int));
        let ghost with_heading = item_views(items@);
        items.push(ListItem::Row(make_row(entry, i)));
        assert(item_views(items@) =~= with_heading + seq![
            ItemView::Row(row_of(entry@, i as nat)),
        ]);
        assert(item_views(items@) =~= grouped_rows(next));
        i = i + 1;
    }
    assert(views.take(i as int) =~= views);
    if entries.len() == 0 {
        items.push(ListItem::Placeholder);
        assert(item_views(items@) =~= list_of(views));
    }
    items
}

impl ResourceMonitorView {
    /// The list of the entries of `snapshot` as the panel shows them.
    pub fn render_list(&self, snapshot: &ProcessSnapshot) -> (items: Vec<ListItem>)
        ensures
            exists|entries: Seq<EntryView>| #[trigger]
                shows_sorted(*self, entries, entry_views(snapshot.entries@)) && item_views(items@)
                    == list_of(entries),
            exists|entries: Seq<ProcessEntry>| #[trigger]
                shows_sorted(*self, entry_views(entries), entry_views(snapshot.entries@))
                    && item_views(items@) == list_of(entry_views(entries)),
    {
        let entries = self.sorted_entries(snapshot);
        let items = make_list(&entries);
        assert(shows_sorted(*self, entry_views(entries@), entry_views(snapshot.entries@)));
        items
    }
}

} // verus!
