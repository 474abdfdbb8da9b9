//! What holds of a fresh snapshot, told by the entries that it shows.
use crate::collector::{
    is_snapshot_of, main_entry, monitored_entries, server_entries, server_entry, terminal_entries,
    terminal_entry, LanguageServerStatus, TerminalStatus,
};
use crate::entry::{
    category_then_name, cpu_usages, entry_views, lemma_category_then_name_ranks,
    lemma_memory_total_rearranged, memory_total, EntryView, ProcessCategory, ProcessEntry,
    ProcessSnapshot,
};
use crate::laws::trees::{law_tree_memory_is_of_all_descendants, reaches, row_memory, sum_of};
use crate::laws::words::{comes_first, law_names_are_in_dictionary_order};
use crate::names::lowercase;
use crate::order::{
    goes_first, is_arrangement, lemma_arrangement_covers, lemma_sorted_is_rearranged,
    lists_in_order, picked,
};
use crate::percent::CpuPercent;
use crate::percent_sum::{adds_to, running_sums};
use crate::process_tree::{distinct_pids, lemma_table_of, table_of, ProcessInfo, ProcessRecord};
use vstd::prelude::*;

verus! {

// What is monitored

/// The live terminals have their entries, and no other terminal has.
proof fn lemma_live_terminals(
    table: Map<u32, ProcessInfo>,
    terminals: Seq<Option<TerminalStatus>>,
)
    ensures
        ({
            let live = terminals.filter(|terminal: Option<TerminalStatus>| terminal is Some);
            &&& terminal_entries(table, terminals).len() == live.len()
            &&& forall|i: int|
                0 <= i < live.len() ==> live[i] is Some && #[trigger] terminal_entries(
                    table,
                    terminals,
                )[i] == terminal_entry(table, live[i]->0)
        }),
    decreases terminals.len(),
{
    reveal(Seq::filter);
    if terminals.len() > 0 {
        lemma_live_terminals(table, terminals.drop_last());
    }
}

/// The entry has the CPU usage of the process it names and the memory of all processes that reach
/// it, by the rows of the process table. Without a process, or without a row, it has none.
pub open spec fn has_usage_of_process(
    records: Seq<ProcessRecord>,
    pid: Option<u32>,
    cpu: CpuPercent,
    memory: int,
) -> bool {
    match pid {
        Some(pid) => {
            &&& memory == row_memory(
                records,
                |record: ProcessRecord| reaches(records, record.pid, pid),
            )
            &&& forall|k: int|
                0 <= k < records.len() && (#[trigger] records[k]).pid == pid ==> cpu
                    == records[k].info.cpu
            &&& (forall|k: int| 0 <= k < records.len() ==> (#[trigger] records[k]).pid != pid)
                ==> cpu.bits == 0
        },
        None => memory == 0 && cpu.bits == 0,
    }
}

proof fn lemma_usage_of_process(records: Seq<ProcessRecord>, pid: Option<u32>)
    requires
        distinct_pids(records),
    ensures
        forall|name: Seq<char>, context: Option<Seq<char>>, category: ProcessCategory|
            {
                let entry = #[trigger] crate::collector::entry_for(
                    table_of(records),
                    name,
                    context,
                    category,
                    pid,
                );
                has_usage_of_process(records, pid, entry.cpu_percent, entry.memory_bytes as int)
            },
{
    lemma_table_of(records);
    if let Some(pid) = pid {
        law_tree_memory_is_of_all_descendants(records, pid);
    }
}

/// What is monitored is the editor, then every server, then every live terminal, each with the
/// usage of its process.
pub proof fn law_monitored_entries(
    records: Seq<ProcessRecord>,
    own_pid: u32,
    servers: Seq<LanguageServerStatus>,
    terminals: Seq<Option<TerminalStatus>>,
)
    requires
        distinct_pids(records),
    ensures
        ({
            let live = terminals.filter(|terminal: Option<TerminalStatus>| terminal is Some);
            let monitored = monitored_entries(table_of(records), own_pid, servers, terminals);
            &&& monitored.len() == 1 + servers.len() + live.len()
            &&& monitored[0].name == "Zed"@
            &&& monitored[0].context is None
            &&& monitored[0].category == ProcessCategory::MainProcess
            &&& monitored[0].pid == Some(own_pid)
            &&& forall|k: int|
                0 <= k < servers.len() ==> {
                    let entry = #[trigger] monitored[1 + k];
                    &&& entry.name == servers[k].name@
                    &&& match servers[k].worktree_name {
                        Some(worktree) => entry.context == Some(worktree@),
                        None => entry.context is None,
                    }
                    &&& entry.category == ProcessCategory::LanguageServer
                    &&& entry.pid == servers[k].process_id
                }
            &&& forall|k: int|
                0 <= k < live.len() ==> {
                    let entry = #[trigger] monitored[1 + servers.len() + k];
                    &&& live[k] matches Some(terminal)
                    &&& entry.name == terminal.title@
                    &&& entry.context is None
                    &&& entry.category == ProcessCategory::Terminal
                    &&& entry.pid == terminal.pid
                }
            &&& forall|i: int|
                0 <= i < monitored.len() ==> has_usage_of_process(
                    records,
                    (#[trigger] monitored[i]).pid,
                    monitored[i].cpu_percent,
                    monitored[i].memory_bytes as int,
                )
        }),
{
    let table = table_of(records);
    let live = terminals.filter(|terminal: Option<TerminalStatus>| terminal is Some);
    let monitored = monitored_entries(table, own_pid, servers, terminals);
    lemma_live_terminals(table, terminals);
    assert(monitored[0] == main_entry(table, own_pid));
    assert forall|k: int| 0 <= k < servers.len() implies #[trigger] monitored[1 + k]
        == server_entry(table, servers[k]) by {
        assert(server_entries(table, servers)[k] == server_entry(table, servers[k]));
    }
    assert forall|k: int| 0 <= k < live.len() implies #[trigger] monitored[1 + servers.len() + k]
        == terminal_entry(table, live[k]->0) by {
        assert(terminal_entries(table, terminals)[k] == terminal_entry(table, live[k]->0));
    }
    assert forall|i: int| 0 <= i < monitored.len() implies has_usage_of_process(
        records,
        (#[trigger] monitored[i]).pid,
        monitored[i].cpu_percent,
        monitored[i].memory_bytes as int,
    ) by {
        lemma_usage_of_process(records, monitored[i].pid);
        if 1 <= i <= servers.len() {
            assert(monitored[1 + (i - 1)] == server_entry(table, servers[i - 1]));
        } else if i > servers.len() {
            let k = i - 1 - servers.len();
            assert(monitored[1 + servers.len() + k] == terminal_entry(table, live[k]->0));
        }
    }
}

// What a snapshot shows

/// A fresh snapshot has one entry each for the editor, every language server and every live
/// terminal, and no other.
///
/// `sources[i]` says whose entry the `i`-th is: `0` the editor's, then the servers', then the live
/// terminals'. Language servers come first and the editor last; within a category names are in
/// dictionary order without regard to case, and equal ones in the order in which they were given.
pub proof fn law_snapshot_shows_what_is_monitored(
    snapshot: ProcessSnapshot,
    records: Seq<ProcessRecord>,
    own_pid: u32,
    servers: Seq<LanguageServerStatus>,
    terminals: Seq<Option<TerminalStatus>>,
)
    requires
        distinct_pids(records),
        is_snapshot_of(
            snapshot,
            monitored_entries(table_of(records), own_pid, servers, terminals),
        ),
    ensures
        ({
            let live = terminals.filter(|terminal: Option<TerminalStatus>| terminal is Some);
            let entries = snapshot.entries@;
            exists|sources: Seq<int>|
                {
                    &&& #[trigger] sources.no_duplicates()
                    &&& sources.len() == entries.len()
                    &&& entries.len() == 1 + servers.len() + live.len()
                    &&& forall|i: int|
                        0 <= i < entries.len() ==> {
                            let entry = #[trigger] entries[i];
                            let source = sources[i];
                            &&& 0 <= source < entries.len()
                            &&& source == 0 ==> {
                                &&& entry.name@ == "Zed"@
                                &&& entry.context is None
                                &&& entry.category == ProcessCategory::MainProcess
                                &&& entry.pid == Some(own_pid)
                            }
                            &&& 1 <= source <= servers.len() ==> {
                                let server = servers[source - 1];
                                &&& entry.name@ == server.name@
                                &&& match (entry.context, server.worktree_name) {
                                    (Some(context), Some(worktree)) => context@ == worktree@,
                                    (None, None) => true,
                                    _ => false,
                                }
                                &&& entry.category == ProcessCategory::LanguageServer
                                &&& entry.pid == server.process_id
                            }
                            &&& servers.len() < source ==> {
                                &&& live[source - 1 - servers.len()] matches Some(terminal)
                                &&& entry.name@ == terminal.title@
                                &&& entry.context is None
                                &&& entry.category == ProcessCategory::Terminal
                                &&& entry.pid == terminal.pid
                            }
                        }
                    &&& forall|i: int, j: int|
                        0 <= i < j < entries.len() ==> {
                            let a = #[trigger] entries[i];
                            let b = #[trigger] entries[j];
                            &&& a.category == ProcessCategory::Terminal ==> b.category
                                != ProcessCategory::LanguageServer
                            &&& a.category == ProcessCategory::MainProcess ==> b.category
                                == ProcessCategory::MainProcess
                            &&& a.category == b.category ==> !comes_first(
                                lowercase(b.name@),
                                lowercase(a.name@),
                            )
                            &&& a.category == b.category && lowercase(a.name@) == lowercase(b.name@)
                                ==> sources[i] < sources[j]
                        }
                }
        }),
{
    let entries = snapshot.entries@;
    let shown = entry_views(entries);
    let monitored = monitored_entries(table_of(records), own_pid, servers, terminals);
    let live = terminals.filter(|terminal: Option<TerminalStatus>| terminal is Some);
    law_monitored_entries(records, own_pid, servers, terminals);
    let sources = choose|places: Seq<int>| #[trigger]
        is_arrangement(places, monitored.len()) && shown == picked(monitored, places)
            && lists_in_order(places, monitored, category_then_name());
    lemma_category_then_name_ranks(monitored);
    assert(shown.len() == entries.len());
    assert(sources.no_duplicates());
    assert forall|i: int| 0 <= i < entries.len() implies {
        let entry = #[trigger] entries[i];
        let source = sources[i];
        &&& 0 <= source < entries.len()
        &&& source == 0 ==> {
            &&& entry.name@ == "Zed"@
            &&& entry.context is None
            &&& entry.category == ProcessCategory::MainProcess
            &&& entry.pid == Some(own_pid)
        }
        &&& 1 <= source <= servers.len() ==> {
            let server = servers[source - 1];
            &&& entry.name@ == server.name@
            &&& match (entry.context, server.worktree_name) {
                (Some(context), Some(worktree)) => context@ == worktree@,
                (None, None) => true,
                _ => false,
            }
            &&& entry.category == ProcessCategory::LanguageServer
            &&& entry.pid == server.process_id
        }
        &&& servers.len() < source ==> {
            &&& live[source - 1 - servers.len()] matches Some(terminal)
            &&& entry.name@ == terminal.title@
            &&& entry.context is None
            &&& entry.category == ProcessCategory::Terminal
            &&& entry.pid == terminal.pid
        }
    } by {
        let source = sources[i];
        assert(shown[i] == entries[i]@);
        assert(shown[i] == monitored[source]);
        if 1 <= source <= servers.len() {
            assert(monitored[1 + (source - 1)] == entries[i]@);
        } else if servers.len() < source {
            assert(monitored[1 + servers.len() + (source - 1 - servers.len())] == entries[i]@);
        }
    }
    assert forall|i: int, j: int| 0 <= i < j < entries.len() implies {
        let a = #[trigger] entries[i];
        let b = #[trigger] entries[j];
        &&& a.category == ProcessCategory::Terminal ==> b.category
            != ProcessCategory::LanguageServer
        &&& a.category == ProcessCategory::MainProcess ==> b.category
            == ProcessCategory::MainProcess
        &&& a.category == b.category ==> !comes_first(lowercase(b.name@), lowercase(a.name@))
        &&& a.category == b.category && lowercase(a.name@) == lowercase(b.name@) ==> sources[i]
            < sources[j]
    } by {
        let a = entries[i];
        let b = entries[j];
        assert(shown[i] == a@ && shown[i] == monitored[sources[i]]);
        assert(shown[j] == b@ && shown[j] == monitored[sources[j]]);
        assert(goes_first(monitored, category_then_name(), sources[i], sources[j]));
        law_names_are_in_dictionary_order(lowercase(a.name@), lowercase(b.name@));
        law_names_are_in_dictionary_order(lowercase(b.name@), lowercase(a.name@));
        if crate::names::text_before(lowercase(a.name@), lowercase(b.name@)) {
            crate::names::lemma_text_before_asymmetric(lowercase(a.name@), lowercase(b.name@));
        }
    }
}

/// Every entry of a fresh snapshot has the CPU usage of its process alone, and the memory of that
/// process and of all its descendants.
pub proof fn law_snapshot_entries_have_their_usage(
    snapshot: ProcessSnapshot,
    records: Seq<ProcessRecord>,
    own_pid: u32,
    servers: Seq<LanguageServerStatus>,
    terminals: Seq<Option<TerminalStatus>>,
    i: int,
)
    requires
        distinct_pids(records),
        is_snapshot_of(
            snapshot,
            monitored_entries(table_of(records), own_pid, servers, terminals),
        ),
        0 <= i < snapshot.entries@.len(),
    ensures
        ({
            let entry = snapshot.entries@[i];
            match entry.pid {
                Some(pid) => {
                    &&& entry.memory_bytes == row_memory(
                        records,
                        |record: ProcessRecord| reaches(records, record.pid, pid),
                    )
                    &&& forall|k: int|
                        0 <= k < records.len() && (#[trigger] records[k]).pid == pid
                            ==> entry.cpu_percent == records[k].info.cpu
                    &&& (forall|k: int|
                        0 <= k < records.len() ==> (#[trigger] records[k]).pid != pid)
                        ==> entry.cpu_percent.bits == 0
                },
                None => entry.memory_bytes == 0 && entry.cpu_percent.bits == 0,
            }
        }),
{
    let shown = entry_views(snapshot.entries@);
    let monitored = monitored_entries(table_of(records), own_pid, servers, terminals);
    law_monitored_entries(records, own_pid, servers, terminals);
    let places = choose|places: Seq<int>| #[trigger]
        is_arrangement(places, monitored.len()) && shown == picked(monitored, places)
            && lists_in_order(places, monitored, category_then_name());
    assert(shown[i] == snapshot.entries@[i]@);
    assert(shown[i] == monitored[places[i]]);
    assert(has_usage_of_process(
        records,
        monitored[places[i]].pid,
        monitored[places[i]].cpu_percent,
        monitored[places[i]].memory_bytes as int,
    ));
}

/// Every live terminal has its entry in a fresh snapshot: its title, its process, and the memory
/// of everything that runs in it.
pub proof fn law_snapshot_has_every_terminal(
    snapshot: ProcessSnapshot,
    records: Seq<ProcessRecord>,
    own_pid: u32,
    servers: Seq<LanguageServerStatus>,
    terminals: Seq<Option<TerminalStatus>>,
    k: int,
    pid: u32,
)
    requires
        distinct_pids(records),
        is_snapshot_of(
            snapshot,
            monitored_entries(table_of(records), own_pid, servers, terminals),
        ),
        0 <= k < terminals.len(),
        terminals[k] is Some,
        terminals[k]->0.pid == Some(pid),
    ensures
        exists|i: int|
            {
                &&& 0 <= i < snapshot.entries@.len()
                &&& (#[trigger] snapshot.entries@[i]).name@ == terminals[k]->0.title@
                &&& snapshot.entries@[i].context is None
                &&& snapshot.entries@[i].category == ProcessCategory::Terminal
                &&& snapshot.entries@[i].pid == Some(pid)
                &&& snapshot.entries@[i].memory_bytes == row_memory(
                    records,
                    |record: ProcessRecord| reaches(records, record.pid, pid),
                )
            },
{
    let live = terminals.filter(|terminal: Option<TerminalStatus>| terminal is Some);
    let monitored = monitored_entries(table_of(records), own_pid, servers, terminals);
    law_monitored_entries(records, own_pid, servers, terminals);
    terminals.lemma_filter_contains(|terminal: Option<TerminalStatus>| terminal is Some, k);
    assert(live.contains(terminals[k]));
    let x = choose|x: int| 0 <= x < live.len() && live[x] == terminals[k];
    let place = 1 + servers.len() + x;
    assert(monitored[1 + servers.len() + x].pid == terminals[k]->0.pid);
    let i = lemma_source_is_shown(snapshot, monitored, place);
    law_snapshot_entries_have_their_usage(snapshot, records, own_pid, servers, terminals, i);
}

/// Every language server has its entry in a fresh snapshot.
pub proof fn law_snapshot_has_every_server(
    snapshot: ProcessSnapshot,
    records: Seq<ProcessRecord>,
    own_pid: u32,
    servers: Seq<LanguageServerStatus>,
    terminals: Seq<Option<TerminalStatus>>,
    k: int,
    pid: u32,
)
    requires
        distinct_pids(records),
        is_snapshot_of(
            snapshot,
            monitored_entries(table_of(records), own_pid, servers, terminals),
        ),
        0 <= k < servers.len(),
        servers[k].process_id == Some(pid),
    ensures
        exists|i: int|
            {
                &&& 0 <= i < snapshot.entries@.len()
                &&& (#[trigger] snapshot.entries@[i]).name@ == servers[k].name@
                &&& match (snapshot.entries@[i].context, servers[k].worktree_name) {
                    (Some(context), Some(worktree)) => context@ == worktree@,
                    (None, None) => true,
                    _ => false,
                }
                &&& snapshot.entries@[i].category == ProcessCategory::LanguageServer
                &&& snapshot.entries@[i].pid == Some(pid)
                &&& snapshot.entries@[i].memory_bytes == row_memory(
                    records,
                    |record: ProcessRecord| reaches(records, record.pid, pid),
                )
            },
{
    let monitored = monitored_entries(table_of(records), own_pid, servers, terminals);
    law_monitored_entries(records, own_pid, servers, terminals);
    assert(monitored[1 + k].pid == servers[k].process_id);
    let i = lemma_source_is_shown(snapshot, monitored, 1 + k);
    law_snapshot_entries_have_their_usage(snapshot, records, own_pid, servers, terminals, i);
}

/// The editor has its entry in a fresh snapshot, with the memory of everything that it has
/// started.
pub proof fn law_snapshot_has_the_editor(
    snapshot: ProcessSnapshot,
    records: Seq<ProcessRecord>,
    own_pid: u32,
    servers: Seq<LanguageServerStatus>,
    terminals: Seq<Option<TerminalStatus>>,
)
    requires
        distinct_pids(records),
        is_snapshot_of(
            snapshot,
            monitored_entries(table_of(records), own_pid, servers, terminals),
        ),
    ensures
        exists|i: int|
            {
                &&& 0 <= i < snapshot.entries@.len()
                &&& (#[trigger] snapshot.entries@[i]).name@ == "Zed"@
                &&& snapshot.entries@[i].category == ProcessCategory::MainProcess
                &&& snapshot.entries@[i].pid == Some(own_pid)
                &&& snapshot.entries@[i].memory_bytes == row_memory(
                    records,
                    |record: ProcessRecord| reaches(records, record.pid, own_pid),
                )
            },
{
    let monitored = monitored_entries(table_of(records), own_pid, servers, terminals);
    law_monitored_entries(records, own_pid, servers, terminals);
    let i = lemma_source_is_shown(snapshot, monitored, 0);
    law_snapshot_entries_have_their_usage(snapshot, records, own_pid, servers, terminals, i);
}

proof fn lemma_source_is_shown(
    snapshot: ProcessSnapshot,
    monitored: Seq<EntryView>,
    place: int,
) -> (i: int)
    requires
        is_snapshot_of(snapshot, monitored),
        0 <= place < monitored.len(),
    ensures
        0 <= i < snapshot.entries@.len(),
        snapshot.entries@[i]@ == monitored[place],
{
    let shown = entry_views(snapshot.entries@);
    let places = choose|places: Seq<int>| #[trigger]
        is_arrangement(places, monitored.len()) && shown == picked(monitored, places)
            && lists_in_order(places, monitored, category_then_name());
    lemma_arrangement_covers(places, monitored.len(), place);
    let i = choose|i: int| 0 <= i < places.len() && #[trigger] places[i] == place;
    assert(shown[i] == snapshot.entries@[i]@);
    assert(shown[i] == monitored[places[i]]);
    i
}

/// In a fresh snapshot, language servers come before terminals and these before the editor, and
/// within a category names are in dictionary order without regard to case.
pub proof fn law_snapshot_is_in_order(
    snapshot: ProcessSnapshot,
    monitored: Seq<EntryView>,
    i: int,
    j: int,
)
    requires
        is_snapshot_of(snapshot, monitored),
        0 <= i < j < snapshot.entries@.len(),
    ensures
        ({
            let a = snapshot.entries@[i];
            let b = snapshot.entries@[j];
            &&& a.category == ProcessCategory::Terminal ==> b.category
                != ProcessCategory::LanguageServer
            &&& a.category == ProcessCategory::MainProcess ==> b.category
                == ProcessCategory::MainProcess
            &&& a.category == b.category ==> !comes_first(lowercase(b.name@), lowercase(a.name@))
        }),
{
    let a = snapshot.entries@[i];
    let b = snapshot.entries@[j];
    let shown = entry_views(snapshot.entries@);
    lemma_category_then_name_ranks(monitored);
    crate::laws::law_sorted_is_in_order(shown, monitored, category_then_name(), i, j);
    assert(shown[i] == a@);
    assert(shown[j] == b@);
    law_names_are_in_dictionary_order(lowercase(b.name@), lowercase(a.name@));
}

// Totals

/// The memory of some entries together is the sum of their memory.
pub proof fn law_memory_total_is_the_sum(entries: Seq<EntryView>)
    ensures
        memory_total(entries) == sum_of(
            entries.map_values(|entry: EntryView| entry.memory_bytes as int),
        ),
    decreases entries.len(),
{
    let memory = |entry: EntryView| entry.memory_bytes as int;
    if entries.len() > 0 {
        law_memory_total_is_the_sum(entries.drop_last());
        assert(entries.map_values(memory).drop_last() =~= entries.drop_last().map_values(memory));
    }
}

/// The total memory of a fresh snapshot is the sum over all its entries.
pub proof fn law_snapshot_memory_total(snapshot: ProcessSnapshot, monitored: Seq<EntryView>)
    requires
        is_snapshot_of(snapshot, monitored),
    ensures
        snapshot.total_memory_bytes == sum_of(
            snapshot.entries@.map_values(|entry: ProcessEntry| entry.memory_bytes as int),
        ),
{
    let shown = entry_views(snapshot.entries@);
    lemma_sorted_is_rearranged(shown, monitored, category_then_name());
    lemma_memory_total_rearranged(shown, monitored);
    law_memory_total_is_the_sum(shown);
    assert(shown.map_values(|entry: EntryView| entry.memory_bytes as int)
        =~= snapshot.entries@.map_values(|entry: ProcessEntry| entry.memory_bytes as int));
}

/// The total CPU usage of a fresh snapshot is what comes of adding the CPU usage of every entry,
/// one after the other, to a negative zero.
pub proof fn law_snapshot_cpu_total(snapshot: ProcessSnapshot, monitored: Seq<EntryView>)
    requires
        is_snapshot_of(snapshot, monitored),
    ensures
        exists|sums: Seq<CpuPercent>|
            {
                &&& sums.len() == snapshot.entries@.len() + 1
                &&& #[trigger] sums[0] == (CpuPercent { bits: 0x8000_0000 })
                &&& forall|i: int|
                    0 <= i < snapshot.entries@.len() ==> adds_to(
                        sums[i],
                        (#[trigger] snapshot.entries@[i]).cpu_percent,
                        sums[i + 1],
                    )
                &&& sums[snapshot.entries@.len() as int] == snapshot.total_cpu_percent
            },
{
    law_cpu_total_adds_every_entry(snapshot.entries@, snapshot.total_cpu_percent);
}

/// A total of CPU usages is what comes of adding the CPU usage of every entry, one after the
/// other, to a negative zero.
pub proof fn law_cpu_total_adds_every_entry(entries: Seq<ProcessEntry>, total: CpuPercent)
    requires
        crate::percent_sum::sums_to(cpu_usages(entry_views(entries)), total),
    ensures
        exists|sums: Seq<CpuPercent>|
            {
                &&& sums.len() == entries.len() + 1
                &&& #[trigger] sums[0] == (CpuPercent { bits: 0x8000_0000 })
                &&& forall|i: int|
                    0 <= i < entries.len() ==> adds_to(
                        sums[i],
                        (#[trigger] entries[i]).cpu_percent,
                        sums[i + 1],
                    )
                &&& sums[entries.len() as int] == total
            },
{
    let usages = cpu_usages(entry_views(entries));
    let sums = choose|sums: Seq<CpuPercent>| #[trigger]
        running_sums(sums, usages) && sums.last() == total;
    assert forall|i: int| 0 <= i < entries.len() implies adds_to(
        sums[i],
        (#[trigger] entries[i]).cpu_percent,
        sums[i + 1],
    ) by {
        assert(entry_views(entries)[i] == entries[i]@);
        assert(usages[i] == entries[i].cpu_percent);
    }
    assert(sums[0] == (CpuPercent { bits: 0x8000_0000 }));
}

} // verus!
