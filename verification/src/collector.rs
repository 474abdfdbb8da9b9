//! Collecting the entries of a snapshot from the process table.
use crate::entry::{
    category_then_name, copy_text, cpu_usages, entry_views, lemma_memory_total_bounds,
    lemma_memory_total_rearranged, memory_total, sort_by_category_and_name, text_view, EntryView,
    ProcessCategory, ProcessEntry, ProcessSnapshot,
};
use crate::order::{lemma_sorted_is_rearranged, sorts_stably};
use crate::percent::CpuPercent;
use crate::percent_sum::{adds_to, running_sums, sums_to};
use crate::process_tree::{
    checked_tree_memory, distinct_pids, find_cpu, parent_links, parents_of, process_records,
    process_table, table_of, tree_memory, ProcessInfo, ProcessRecord,
};
use std::collections::HashMap;
use sysinfo::System;
use vstd::prelude::*;

verus! {

// Polling

/// How long to wait between two refreshes.
pub const POLL_INTERVAL_SECS: u64 = 2;

/// What the polling loop has just seen.
#[derive(Debug, Clone, Copy, PartialEq, Eq, Structural)]
pub enum PollEvent {
    Started,
    TimerElapsed,
    Refreshed,
    CollectorGone,
}

/// What the polling loop does next.
#[derive(Debug, Clone, Copy, PartialEq, Eq, Structural)]
pub enum PollAction {
    Wait { seconds: u64 },
    Refresh,
    Stop,
}

/// Decides what the polling loop does next: it waits before every refresh, and stops once the
/// collector is gone.
pub fn next_poll_action(event: PollEvent) -> (action: PollAction)
    ensures
        action == (match event {
            PollEvent::Started => PollAction::Wait { seconds: POLL_INTERVAL_SECS },
            PollEvent::TimerElapsed => PollAction::Refresh,
            PollEvent::Refreshed => PollAction::Wait { seconds: POLL_INTERVAL_SECS },
            PollEvent::CollectorGone => PollAction::Stop,
        }),
        action matches PollAction::Wait { seconds } ==> seconds == 2,
{
    match event {
        PollEvent::Started | PollEvent::Refreshed => PollAction::Wait {
            seconds: POLL_INTERVAL_SECS,
        },
        PollEvent::TimerElapsed => PollAction::Refresh,
        PollEvent::CollectorGone => PollAction::Stop,
    }
}

// What is monitored

/// A language server that the project runs.
#[derive(Debug)]
pub struct LanguageServerStatus {
    pub name: String,
    /// The root name of the worktree that the server works on.
    pub worktree_name: Option<String>,
    pub process_id: Option<u32>,
}

/// A terminal of the project.
#[derive(Debug)]
pub struct TerminalStatus {
    pub title: String,
    pub pid: Option<u32>,
}

/// The CPU usage of process `pid` alone, zero where there is no such process.
pub open spec fn cpu_of(table: Map<u32, ProcessInfo>, pid: Option<u32>) -> CpuPercent {
    match pid {
        Some(pid) if table.contains_key(pid) => table[pid].cpu,
        _ => CpuPercent { bits: 0 },
    }
}

/// The memory of process `pid` and all its descendants, zero where there is no process.
pub open spec fn memory_of(table: Map<u32, ProcessInfo>, pid: Option<u32>) -> nat {
    match pid {
        Some(pid) => tree_memory(table, parents_of(table), pid),
        None => 0,
    }
}

/// The entry of something that runs as process `pid`.
pub open spec fn entry_for(
    table: Map<u32, ProcessInfo>,
    name: Seq<char>,
    context: Option<Seq<char>>,
    category: ProcessCategory,
    pid: Option<u32>,
) -> EntryView {
    EntryView {
        name,
        context,
        category,
        pid,
        cpu_percent: cpu_of(table, pid),
        memory_bytes: memory_of(table, pid),
    }
}

/// The entry of the editor itself.
pub open spec fn main_entry(table: Map<u32, ProcessInfo>, own_pid: u32) -> EntryView {
    entry_for(table, "Zed"@, None, ProcessCategory::MainProcess, Some(own_pid))
}

/// The entry of a language server.
pub open spec fn server_entry(
    table: Map<u32, ProcessInfo>,
    server: LanguageServerStatus,
) -> EntryView {
    entry_for(
        table,
        server.name@,
        text_view(server.worktree_name),
        ProcessCategory::LanguageServer,
        server.process_id,
    )
}

/// The entries of the language servers, in the given order.
pub open spec fn server_entries(
    table: Map<u32, ProcessInfo>,
    servers: Seq<LanguageServerStatus>,
) -> Seq<EntryView> {
    servers.map_values(|server: LanguageServerStatus| server_entry(table, server))
}

/// The entry of a terminal.
pub open spec fn terminal_entry(
    table: Map<u32, ProcessInfo>,
    terminal: TerminalStatus,
) -> EntryView {
    entry_for(table, terminal.title@, None, ProcessCategory::Terminal, terminal.pid)
}

/// The entries of the terminals that are still there, in the given order.
pub open spec fn terminal_entries(
    table: Map<u32, ProcessInfo>,
    terminals: Seq<Option<TerminalStatus>>,
) -> Seq<EntryView>
    decreases terminals.len(),
{
    if terminals.len() == 0 {
        Seq::empty()
    } else {
        let earlier = terminal_entries(table, terminals.drop_last());
        match terminals.last() {
            Some(terminal) => earlier.push(terminal_entry(table, terminal)),
            None => earlier,
        }
    }
}

/// All entries before they are sorted: the editor, its language servers, its terminals.
pub open spec fn monitored_entries(
    table: Map<u32, ProcessInfo>,
    own_pid: u32,
    servers: Seq<LanguageServerStatus>,
    terminals: Seq<Option<TerminalStatus>>,
) -> Seq<EntryView> {
    seq![main_entry(table, own_pid)] + server_entries(table, servers) + terminal_entries(
        table,
        terminals,
    )
}

/// Every entry's memory can be held in 64 bits.
spec fn memory_fits(entries: Seq<EntryView>) -> bool {
    forall|i: int| 0 <= i < entries.len() ==> (#[trigger] entries[i]).memory_bytes <= u64::MAX
}

/// `snapshot` shows the monitored entries by category and name, with their totals.
pub open spec fn is_snapshot_of(snapshot: ProcessSnapshot, monitored: Seq<EntryView>) -> bool {
    let shown = entry_views(snapshot.entries@);
    &&& sorts_stably(shown, monitored, category_then_name())
    &&& sums_to(cpu_usages(shown), snapshot.total_cpu_percent)
    &&& snapshot.total_memory_bytes == memory_total(monitored)
}

/// `entries` are the monitored entries in the order of a fresh snapshot. They are missing when
/// some memory size does not fit.
spec fn collects(entries: Option<Vec<ProcessEntry>>, monitored: Seq<EntryView>) -> bool {
    match entries {
        Some(entries) => memory_fits(monitored) && sorts_stably(
            entry_views(entries@),
            monitored,
            category_then_name(),
        ),
        None => !memory_fits(monitored),
    }
}

/// What something that runs as a process uses.
struct ProcessUsage {
    cpu: CpuPercent,
    memory: u64,
}

/// The usage of something that runs as process `pid`, where its memory fits.
fn usage_of(
    records: &Vec<ProcessRecord>,
    parent_map: &HashMap<u32, u32>,
    pid: Option<u32>,
) -> (usage: Option<ProcessUsage>)
    requires
        distinct_pids(records@),
        parent_map@ == parents_of(table_of(records@)),
    ensures
        match usage {
            Some(usage) => usage.cpu == cpu_of(table_of(records@), pid) && usage.memory
                == memory_of(table_of(records@), pid),
            None => memory_of(table_of(records@), pid) > u64::MAX,
        },
{
    let idle = CpuPercent { bits: 0 };
    match pid {
        Some(pid) => match checked_tree_memory(records, pid, parent_map) {
            Some(memory) => {
                let cpu = match find_cpu(records, pid) {
                    Some(cpu) => cpu,
                    None => idle,
                };
                Some(ProcessUsage { cpu, memory })
            },
            None => None,
        },
        None => Some(ProcessUsage { cpu: idle, memory: 0 }),
    }
}

/// A terminal that is still there has its entry.
proof fn lemma_terminal_listed(
    table: Map<u32, ProcessInfo>,
    terminals: Seq<Option<TerminalStatus>>,
    k: int,
)
    requires
        0 <= k < terminals.len(),
        terminals[k] is Some,
    ensures
        exists|place: int|
            0 <= place < terminal_entries(table, terminals).len() && #[trigger] terminal_entries(
                table,
                terminals,
            )[place] == terminal_entry(table, terminals[k]->0),
    decreases terminals.len(),
{
    let all = terminal_entries(table, terminals);
    let earlier = terminal_entries(table, terminals.drop_last());
    if k == terminals.len() - 1 {
        assert(all[all.len() - 1] == terminal_entry(table, terminals[k]->0));
    } else {
        lemma_terminal_listed(table, terminals.drop_last(), k);
        let place = choose|place: int|
            0 <= place < earlier.len() && #[trigger] earlier[place] == terminal_entry(
                table,
                terminals[k]->0,
            );
        assert(all[place] == terminal_entry(table, terminals[k]->0));
    }
}

/// The entries of a new snapshot from the rows of the process table, sorted by category and then
/// by name without regard to case.
///
/// There is no result when the memory of some process tree does not fit.
fn entries_from_records(
    records: &Vec<ProcessRecord>,
    own_pid: u32,
    servers: &Vec<LanguageServerStatus>,
    terminals: &Vec<Option<TerminalStatus>>,
) -> (entries: Option<Vec<ProcessEntry>>)
    requires
        distinct_pids(records@),
    ensures
        collects(
            entries,
            monitored_entries(table_of(records@), own_pid, servers@, terminals@),
        ),
{
    let parent_map = parent_links(records);
    let ghost table = table_of(records@);
    let ghost monitored = monitored_entries(table, own_pid, servers@, terminals@);
    let mut entries: Vec<ProcessEntry> = Vec::new();

    match usage_of(records, &parent_map, Some(own_pid)) {
        Some(usage) => entries.push(
            ProcessEntry {
                name: "Zed".to_string(),
                context: None,
                category: ProcessCategory::MainProcess,
                pid: Some(own_pid),
                cpu_percent: usage.cpu,
                memory_bytes: usage.memory,
            },
        ),
        None => {
            assert(monitored[0] == main_entry(table, own_pid));
            return None;
        },
    }
    let ghost first = seq![main_entry(table, own_pid)];
    assert(entry_views(entries@) =~= first + server_entries(table, servers@.take(0)));

    let mut i: usize = 0;
    while i < servers.len()
        invariant
            i <= servers.len(),
            distinct_pids(records@),
            table == table_of(records@),
            parent_map@ == parents_of(table),
            monitored == monitored_entries(table, own_pid, servers@, terminals@),
            first == seq![main_entry(table, own_pid)],
            entry_views(entries@) == first + server_entries(table, servers@.take(i as int)),
        decreases servers.len() - i,
    {
        let server = &servers[i];
        match usage_of(records, &parent_map, server.process_id) {
            Some(usage) => {
                let ghost earlier = entries@;
                entries.push(
                    ProcessEntry {
                        name: server.name.clone(),
                        context: copy_text(&server.worktree_name),
                        category: ProcessCategory::LanguageServer,
                        pid: server.process_id,
                        cpu_percent: usage.cpu,
                        memory_bytes: usage.memory,
                    },
                );
                assert(entry_views(entries@) =~= entry_views(earlier).push(
                    server_entry(table, *server),
                ));
            },
            None => {
                assert(monitored[1 + i] == server_entry(table, *server));
                return None;
            },
        }
        assert(server_entries(table, servers@.take(i + 1)) =~= server_entries(
            table,
            servers@.take(i as int),
        ).push(server_entry(table, *server)));
        i = i + 1;
    }
    assert(servers@.take(i as int) =~= servers@);
    let ghost with_servers = first + server_entries(table, servers@);
    assert(entry_views(entries@) =~= with_servers + terminal_entries(
        table,
        terminals@.take(0),
    ));

    let mut k: usize = 0;
    while k < terminals.len()
        invariant
            k <= terminals.len(),
            distinct_pids(records@),
            table == table_of(records@),
            parent_map@ == parents_of(table),
            monitored == monitored_entries(table, own_pid, servers@, terminals@),
            monitored == with_servers + terminal_entries(table, terminals@),
            entry_views(entries@) == with_servers + terminal_entries(
                table,
                terminals@.take(k as int),
            ),
        decreases terminals.len() - k,
    {
        let ghost shown = terminals@.take(k as int);
        assert(terminals@.take(k + 1).drop_last() =~= shown);
        if let Some(terminal) = &terminals[k] {
            match usage_of(records, &parent_map, terminal.pid) {
                Some(usage) => {
                    let ghost earlier = entries@;
                    entries.push(
                        ProcessEntry {
                            name: terminal.title.clone(),
                            context: None,
                            category: ProcessCategory::Terminal,
                            pid: terminal.pid,
                            cpu_percent: usage.cpu,
                            memory_bytes: usage.memory,
                        },
                    );
                    assert(entry_views(entries@) =~= entry_views(earlier).push(
                        terminal_entry(table, *terminal),
                    ));
                    assert(entry_views(entries@) =~= with_servers + terminal_entries(
                        table,
                        terminals@.take(k + 1),
                    ));
                },
                None => {
                    proof {
                        lemma_terminal_listed(table, terminals@, k as int);
                        let place = choose|place: int|
                            0 <= place < terminal_entries(table, terminals@).len()
                                && #[trigger] terminal_entries(table, terminals@)[place]
                                == terminal_entry(table, *terminal);
                        assert(monitored[with_servers.len() + place] == terminal_entry(
                            table,
                            *terminal,
                        ));
                    }
                    return None;
                },
            }
        }
        k = k + 1;
    }
    assert(terminals@.take(k as int) =~= terminals@);
    assert(entry_views(entries@) == monitored);
    assert(memory_fits(monitored)) by {
        assert forall|place: int| 0 <= place < monitored.len() implies (
        #[trigger] monitored[place]).memory_bytes <= u64::MAX by {
            assert(monitored[place] == entries@[place]@);
        }
    }
    Some(sort_by_category_and_name(&entries))
}

/// The sum of the entries' CPU usages.
pub fn total_cpu(entries: &Vec<ProcessEntry>) -> (total: CpuPercent)
    ensures
        sums_to(cpu_usages(entry_views(entries@)), total),
        exists|sums: Seq<CpuPercent>|
            {
                &&& sums.len() == entries@.len() + 1
                &&& #[trigger] sums[0] == (CpuPercent { bits: 0x8000_0000 })
                &&& forall|i: int|
                    0 <= i < entries@.len() ==> adds_to(
                        sums[i],
                        (#[trigger] entries@[i]).cpu_percent,
                        sums[i + 1],
                    )
                &&& sums[entries@.len() as int] == total
            },
{
    let mut total = CpuPercent { bits: 0x8000_0000 };
    let mut i: usize = 0;
    let ghost usages = cpu_usages(entry_views(entries@));
    let ghost mut sums: Seq<CpuPercent> = seq![total];
    while i < entries.len()
        invariant
            i <= entries.len(),
            usages == cpu_usages(entry_views(entries@)),
            running_sums(sums, usages.take(i as int)),
            sums.last() == total,
        decreases entries.len() - i,
    {
        total = total.plus(entries[i].cpu_percent);
        proof {
            let earlier = sums;
            sums = sums.push(total);
            let next = usages.take(i + 1);
            assert forall|k: int| 0 <= k < next.len() implies adds_to(
                sums[k],
                #[trigger] next[k],
                sums[k + 1],
            ) by {
                if k < i {
                    assert(usages.take(i as int)[k] == next[k]);
                    assert(adds_to(earlier[k], usages.take(i as int)[k], earlier[k + 1]));
                }
            }
        }
        i = i + 1;
    }
    assert(usages.take(i as int) =~= usages);
    assert forall|k: int| 0 <= k < entries@.len() implies adds_to(
        sums[k],
        (#[trigger] entries@[k]).cpu_percent,
        sums[k + 1],
    ) by {
        assert(usages[k] == entries@[k].cpu_percent);
    }
    assert(sums[0] == (CpuPercent { bits: 0x8000_0000 }));
    total
}

/// The sum of the entries' memory, where it fits.
pub fn checked_memory_total(entries: &Vec<ProcessEntry>) -> (total: Option<u64>)
    ensures
        total == (if memory_total(entry_views(entries@)) <= u64::MAX {
            Some(memory_total(entry_views(entries@)) as u64)
        } else {
            None
        }),
{
    let mut sum: u128 = 0;
    let mut i: usize = 0;
    let ghost views = entry_views(entries@);
    while i < entries.len()
        invariant
            i <= entries.len(),
            views == entry_views(entries@),
            sum == memory_total(views.take(i as int)),
            sum <= i * 0xffff_ffff_ffff_ffff,
        decreases entries.len() - i,
    {
        assert(views.take(i + 1).drop_last() =~= views.take(i as int));
        sum = sum + entries[i].memory_bytes as u128;
        i = i + 1;
    }
    assert(views.take(i as int) =~= views);
    if sum <= 0xffff_ffff_ffff_ffff {
        Some(sum as u64)
    } else {
        None
    }
}

/// The snapshot of what is monitored, from the rows of the process table.
///
/// `own_pid` is the process of the editor. A terminal that is gone is passed over. There is no
/// result when the memory of all entries together does not fit.
pub fn take_snapshot(
    records: &Vec<ProcessRecord>,
    own_pid: u32,
    servers: &Vec<LanguageServerStatus>,
    terminals: &Vec<Option<TerminalStatus>>,
) -> (snapshot: Option<ProcessSnapshot>)
    requires
        distinct_pids(records@),
    ensures
        ({
            let monitored = monitored_entries(
                table_of(records@),
                own_pid,
                servers@,
                terminals@,
            );
            match snapshot {
                Some(snapshot) => memory_total(monitored) <= u64::MAX && is_snapshot_of(
                    snapshot,
                    monitored,
                ),
                None => memory_total(monitored) > u64::MAX,
            }
        }),
{
    let ghost monitored = monitored_entries(table_of(records@), own_pid, servers@, terminals@);
    match entries_from_records(records, own_pid, servers, terminals) {
        Some(entries) => {
            let total_cpu_percent = total_cpu(&entries);
            proof {
                lemma_sorted_is_rearranged(
                    entry_views(entries@),
                    monitored,
                    category_then_name(),
                );
                lemma_memory_total_rearranged(entry_views(entries@), monitored);
            }
            match checked_memory_total(&entries) {
                Some(total_memory_bytes) => Some(
                    ProcessSnapshot { entries, total_cpu_percent, total_memory_bytes },
                ),
                None => None,
            }
        },
        None => {
            proof {
                let i = choose|i: int|
                    0 <= i < monitored.len() && (#[trigger] monitored[i]).memory_bytes > u64::MAX;
                lemma_memory_total_bounds(monitored, i);
            }
            None
        },
    }
}

/// Collects snapshots of the monitored processes.
pub struct ProcessCollector {
    pub system: System,
    pub snapshot: ProcessSnapshot,
}

impl ProcessCollector {
    /// A collector whose snapshot shows the editor alone, as a placeholder until the first
    /// refresh.
    pub fn new(own_pid: u32) -> (collector: ProcessCollector)
        ensures
            process_table(collector.system).dom() == Set::<u32>::empty(),
            entry_views(collector.snapshot.entries@) == seq![
                EntryView {
                    name: "Zed"@,
                    context: None,
                    category: ProcessCategory::MainProcess,
                    pid: Some(own_pid),
                    cpu_percent: CpuPercent { bits: 0 },
                    memory_bytes: 0,
                },
            ],
            collector.snapshot.entries@.len() == 1,
            collector.snapshot.entries@[0].name@ == "Zed"@,
            collector.snapshot.entries@[0].context is None,
            collector.snapshot.entries@[0].category == ProcessCategory::MainProcess,
            collector.snapshot.entries@[0].pid == Some(own_pid),
            collector.snapshot.entries@[0].cpu_percent.bits == 0,
            collector.snapshot.entries@[0].memory_bytes == 0,
            collector.snapshot.total_cpu_percent.bits == 0,
            collector.snapshot.total_memory_bytes == 0,
    {
        let mut snapshot: ProcessSnapshot = ProcessSnapshot::default();
        snapshot.entries.push(
            ProcessEntry {
                name: "Zed".to_string(),
                context: None,
                category: ProcessCategory::MainProcess,
                pid: Some(own_pid),
                cpu_percent: CpuPercent { bits: 0 },
                memory_bytes: 0,
            },
        );
        let collector = ProcessCollector { system: System::new(), snapshot };
        assert(entry_views(collector.snapshot.entries@) =~= seq![
            EntryView {
                name: "Zed"@,
                context: None,
                category: ProcessCategory::MainProcess,
                pid: Some(own_pid),
                cpu_percent: CpuPercent { bits: 0 },
                memory_bytes: 0,
            },
        ]);
        collector
    }

    /// The parent links between the processes that the system information holds.
    pub fn build_parent_map(&self) -> (parent_map: HashMap<u32, u32>)
        ensures
            parent_map@ == parents_of(process_table(self.system)),
    {
        let records = process_records(&self.system);
        parent_links(&records)
    }

    /// Sums the memory of `root_pid` and all its descendants.
    ///
    /// There is no result when the sum does not fit.
    pub fn checked_memory_for_tree(
        &self,
        root_pid: u32,
        parent_map: &HashMap<u32, u32>,
    ) -> (memory: Option<u64>)
        ensures
            memory == (if tree_memory(process_table(self.system), parent_map@, root_pid)
                <= u64::MAX {
                Some(tree_memory(process_table(self.system), parent_map@, root_pid) as u64)
            } else {
                None
            }),
    {
        let records = process_records(&self.system);
        checked_tree_memory(&records, root_pid, parent_map)
    }

    /// Sums the memory of `root_pid` and all its descendants.
    pub fn memory_for_tree(&self, root_pid: u32, parent_map: &HashMap<u32, u32>) -> (memory: u64)
        requires
            tree_memory(process_table(self.system), parent_map@, root_pid) <= u64::MAX,
        ensures
            memory == tree_memory(process_table(self.system), parent_map@, root_pid),
    {
        self.checked_memory_for_tree(root_pid, parent_map).unwrap()
    }

    /// Replaces the snapshot by a new one of what the system information holds.
    ///
    /// `own_pid` is the process of the editor. A terminal that is gone is passed over. Nothing
    /// changes, and `false` is returned, when the memory of all entries together does not fit.
    pub fn refresh(
        &mut self,
        own_pid: u32,
        servers: &Vec<LanguageServerStatus>,
        terminals: &Vec<Option<TerminalStatus>>,
    ) -> (refreshed: bool)
        ensures
            final(self).system == old(self).system,
            refreshed == (memory_total(
                monitored_entries(process_table(old(self).system), own_pid, servers@, terminals@),
            ) <= u64::MAX),
            refreshed ==> is_snapshot_of(
                final(self).snapshot,
                monitored_entries(process_table(old(self).system), own_pid, servers@, terminals@),
            ),
            !refreshed ==> final(self).snapshot == old(self).snapshot,
    {
        let records = process_records(&self.system);
        match take_snapshot(&records, own_pid, servers, terminals) {
            Some(snapshot) => {
                self.snapshot = snapshot;
                true
            },
            None => false,
        }
    }
}

} // verus!
