//! The textual report and the summary line.
use crate::entry::{entry_views, EntryView, ProcessCategory, ProcessEntry, ProcessSnapshot};
use crate::percent::CpuPercent;
use crate::text::{bytes_text, decimal, decimal_text, format_bytes, push_decimal};
use crate::view::{shows_sorted, ResourceMonitorView};
use vstd::prelude::*;

verus! {

/// A process identifier, or a dash where there is none.
pub open spec fn pid_text(pid: Option<u32>) -> Seq<char> {
    match pid {
        Some(pid) => decimal(pid as nat),
        None => "—"@,
    }
}

/// The text of a process identifier, or a dash where there is none.
pub fn format_pid(pid: Option<u32>) -> (text: String)
    ensures
        text@ == pid_text(pid),
{
    match pid {
        Some(pid) => decimal_text(pid as u128),
        None => "—".to_string(),
    }
}

/// The context behind a name, in parentheses.
pub open spec fn context_suffix(context: Option<Seq<char>>) -> Seq<char> {
    match context {
        Some(context) => " ("@ + context + ")"@,
        None => Seq::empty(),
    }
}

/// The line of one entry.
pub open spec fn entry_line(entry: EntryView) -> Seq<char> {
    "  "@ + entry.name + context_suffix(entry.context) + " PID:"@ + pid_text(entry.pid) + " CPU:"@
        + entry.cpu_percent.shown() + "% Mem:"@ + bytes_text(entry.memory_bytes) + "\n"@
}

/// The line above the entries of a category.
pub open spec fn heading_line(category: ProcessCategory) -> Seq<char> {
    "\n"@ + category.spec_label() + ":\n"@
}

/// A new group starts at place `i`: the entry before it is of another category.
pub open spec fn starts_group(entries: Seq<EntryView>, i: int) -> bool {
    i == 0 || entries[i - 1].category != entries[i].category
}

/// The lines of the entries, each group under the heading of its category.
pub open spec fn entry_lines(entries: Seq<EntryView>) -> Seq<char>
    decreases entries.len(),
{
    if entries.len() == 0 {
        Seq::empty()
    } else {
        let last = entries.len() - 1;
        let heading = if starts_group(entries, last) {
            heading_line(entries[last].category)
        } else {
            Seq::empty()
        };
        entry_lines(entries.drop_last()) + heading + entry_line(entries[last])
    }
}

/// The lines above all entries.
pub open spec fn report_head(total_cpu: CpuPercent, total_memory: nat) -> Seq<char> {
    "Zed Resource Monitor Report\n"@ + "Total: "@ + total_cpu.shown() + "% CPU · "@ + bytes_text(
        total_memory,
    ) + "\n\n"@
}

fn push_entry_line(report: &mut String, entry: &ProcessEntry)
    ensures
        final(report)@ == old(report)@ + entry_line(entry@),
{
    report.append("  ");
    report.append(entry.name.as_str());
    if let Some(context) = &entry.context {
        report.append(" (");
        report.append(context.as_str());
        report.append(")");
    }
    assert(report@ =~= old(report)@ + ("  "@ + entry.name@ + context_suffix(entry@.context)));
    report.append(" PID:");
    report.append(format_pid(entry.pid).as_str());
    report.append(" CPU:");
    entry.cpu_percent.push_text(report);
    report.append("% Mem:");
    report.append(format_bytes(entry.memory_bytes).as_str());
    report.append("\n");
    assert(report@ =~= old(report)@ + entry_line(entry@));
}

/// The report on the given entries, in their order.
pub fn format_report(
    entries: &Vec<ProcessEntry>,
    total_cpu: CpuPercent,
    total_memory: u64,
) -> (report: String)
    ensures
        report@ == report_head(total_cpu, total_memory as nat) + entry_lines(
            entry_views(entries@),
        ),
{
    let mut report = String::new();
    report.append("Zed Resource Monitor Report\n");
    report.append("Total: ");
    total_cpu.push_text(&mut report);
    report.append("% CPU · ");
    report.append(format_bytes(total_memory).as_str());
    report.append("\n\n");
    let ghost head = report_head(total_cpu, total_memory as nat);
    let ghost views = entry_views(entries@);
    assert(report@ =~= head + entry_lines(views.take(0)));

    let mut current_category: Option<ProcessCategory> = None;
    let mut i: usize = 0;
    while i < entries.len()
        invariant
            i <= entries.len(),
            views == entry_views(entries@),
            report@ == head + entry_lines(views.take(i as int)),
            current_category == (if i == 0 {
                None
            } else {
                Some(views[i - 1].category)
            }),
        decreases entries.len() - i,
    {
        let entry = &entries[i];
        let ghost so_far = report@;
        let ghost next = views.take(i + 1);
        assert(next.drop_last() =~= views.take(i as int));
        let new_group = match current_category {
            Some(category) => category != entry.category,
            None => true,
        };
        if new_group {
            current_category = Some(entry.category);
            report.append("\n");
            report.append(entry.category.label());
            report.append(":\n");
            assert(report@ =~= so_far + heading_line(entry.category));
        }
        assert(new_group == starts_group(next, i as int));
        push_entry_line(&mut report, entry);
        assert(report@ =~= head + entry_lines(next));
        i = i + 1;
    }
    assert(views.take(i as int) =~= views);
    report
}

/// The summary line above the list.
pub open spec fn summary(count: nat, total_cpu: CpuPercent, total_memory: nat) -> Seq<char> {
    "— "@ + decimal(count) + " process"@ + (if count == 1 {
        ""@
    } else {
        "es"@
    }) + " · "@ + total_cpu.shown() + "% CPU · "@ + bytes_text(total_memory)
}

/// The summary line above the list.
pub fn format_summary(snapshot: &ProcessSnapshot) -> (line: String)
    ensures
        line@ == summary(
            snapshot.entries@.len(),
            snapshot.total_cpu_percent,
            snapshot.total_memory_bytes as nat,
        ),
{
    let count: usize = snapshot.entries.len();
    let mut line = String::new();
    line.append("— ");
    push_decimal(&mut line, count as u128);
    line.append(" process");
    line.append(if count == 1 { "" } else { "es" });
    line.append(" · ");
    snapshot.total_cpu_percent.push_text(&mut line);
    line.append("% CPU · ");
    line.append(format_bytes(snapshot.total_memory_bytes).as_str());
    assert(line@ =~= summary(
        snapshot.entries@.len(),
        snapshot.total_cpu_percent,
        snapshot.total_memory_bytes as nat,
    ));
    line
}

impl ResourceMonitorView {
    /// The report on `snapshot`, with the entries as the panel shows them.
    pub fn copy_report(&self, snapshot: &ProcessSnapshot) -> (report: String)
        ensures
            exists|entries: Seq<EntryView>| #[trigger]
                shows_sorted(*self, entries, entry_views(snapshot.entries@)) && report@
                    == report_head(
                    snapshot.total_cpu_percent,
                    snapshot.total_memory_bytes as nat,
                ) + entry_lines(entries),
            exists|entries: Seq<ProcessEntry>| #[trigger]
                shows_sorted(*self, entry_views(entries), entry_views(snapshot.entries@))
                    && report@ == report_head(
                    snapshot.total_cpu_percent,
                    snapshot.total_memory_bytes as nat,
                ) + entry_lines(entry_views(entries)),
    {
        let entries = self.sorted_entries(snapshot);
        let report = format_report(
            &entries,
            snapshot.total_cpu_percent,
            snapshot.total_memory_bytes,
        );
        assert(shows_sorted(*self, entry_views(entries@), entry_views(snapshot.entries@)));
        report
    }
}

} // verus!
