use resource_monitor::collector::{
    checked_memory_total, next_poll_action, take_snapshot, total_cpu, LanguageServerStatus,
    PollAction, PollEvent, ProcessCollector, TerminalStatus, POLL_INTERVAL_SECS,
};
use resource_monitor::entry::{
    sort_by_category_and_name, ProcessCategory, ProcessEntry, ProcessSnapshot,
};
use resource_monitor::percent::CpuPercent;
use resource_monitor::process_tree::{ProcessInfo, ProcessRecord};

fn cpu(value: f32) -> CpuPercent {
    CpuPercent::from_bits(value.to_bits())
}

fn record(pid: u32, parent: Option<u32>, memory: u64, usage: f32) -> ProcessRecord {
    ProcessRecord { pid, info: ProcessInfo { parent, memory, cpu: cpu(usage) } }
}

fn server(name: &str, worktree: Option<&str>, process_id: Option<u32>) -> LanguageServerStatus {
    LanguageServerStatus {
        name: name.to_string(),
        worktree_name: worktree.map(|w| w.to_string()),
        process_id,
    }
}

fn terminal(title: &str, pid: Option<u32>) -> Option<TerminalStatus> {
    Some(TerminalStatus { title: title.to_string(), pid })
}

fn entry(name: &str, category: ProcessCategory, memory_bytes: u64) -> ProcessEntry {
    ProcessEntry {
        name: name.to_string(),
        context: None,
        category,
        pid: None,
        cpu_percent: cpu(0.0),
        memory_bytes,
    }
}

fn names(entries: &[ProcessEntry]) -> Vec<String> {
    entries.iter().map(|e| e.name.clone()).collect()
}

#[test]
fn polling_waits_before_every_refresh() {
    assert_eq!(POLL_INTERVAL_SECS, 2);
    assert_eq!(next_poll_action(PollEvent::Started), PollAction::Wait { seconds: 2 });
    assert_eq!(next_poll_action(PollEvent::TimerElapsed), PollAction::Refresh);
    assert_eq!(next_poll_action(PollEvent::Refreshed), PollAction::Wait { seconds: 2 });
    assert_eq!(next_poll_action(PollEvent::CollectorGone), PollAction::Stop);
}

#[test]
fn category_labels() {
    assert_eq!(ProcessCategory::LanguageServer.label(), "Language Servers");
    assert_eq!(ProcessCategory::Terminal.label(), "Terminals");
    assert_eq!(ProcessCategory::MainProcess.label(), "Zed");
}

#[test]
fn default_snapshot_is_empty() {
    let snapshot = ProcessSnapshot::default();
    assert!(snapshot.entries.is_empty());
    assert_eq!(snapshot.total_cpu_percent, cpu(0.0));
    assert_eq!(snapshot.total_memory_bytes, 0);
}

#[test]
fn new_collector_shows_a_placeholder() {
    let collector = ProcessCollector::new(42);
    assert_eq!(collector.snapshot.entries.len(), 1);
    let only = &collector.snapshot.entries[0];
    assert_eq!(only.name, "Zed");
    assert_eq!(only.context, None);
    assert_eq!(only.category, ProcessCategory::MainProcess);
    assert_eq!(only.pid, Some(42));
    assert_eq!(only.cpu_percent, cpu(0.0));
    assert_eq!(only.memory_bytes, 0);
    assert_eq!(collector.snapshot.total_memory_bytes, 0);
}

#[test]
fn entries_are_sorted_by_category_and_then_by_name() {
    let entries = vec![
        entry("Zed", ProcessCategory::MainProcess, 1),
        entry("zsh", ProcessCategory::Terminal, 2),
        entry("rust-analyzer", ProcessCategory::LanguageServer, 3),
        entry("Bash", ProcessCategory::Terminal, 4),
        entry("Clangd", ProcessCategory::LanguageServer, 5),
        entry("ZSH", ProcessCategory::Terminal, 6),
        entry("clang", ProcessCategory::LanguageServer, 7),
    ];
    let sorted = sort_by_category_and_name(&entries);
    assert_eq!(
        names(&sorted),
        vec!["clang", "Clangd", "rust-analyzer", "Bash", "zsh", "ZSH", "Zed"]
    );
}

#[test]
fn sorting_again_changes_nothing() {
    let entries = vec![
        entry("b", ProcessCategory::Terminal, 1),
        entry("B", ProcessCategory::Terminal, 2),
        entry("a", ProcessCategory::MainProcess, 3),
    ];
    let once = sort_by_category_and_name(&entries);
    let twice = sort_by_category_and_name(&once);
    assert_eq!(names(&once), names(&twice));
}

#[test]
fn snapshot_of_a_small_system() {
    let records = vec![
        record(1, None, 1000, 10.0),
        record(2, Some(1), 200, 20.5),
        record(3, Some(2), 30, 40.0),
        record(4, Some(1), 4, 1.25),
        record(50, None, 9999, 99.0),
    ];
    let servers = vec![
        server("rust-analyzer", Some("zed"), Some(2)),
        server("Clangd", None, None),
        server("gone", Some("old"), Some(77)),
    ];
    let terminals = vec![terminal("zsh", Some(4)), None, terminal("Bash", None)];
    let snapshot = take_snapshot(&records, 1, &servers, &terminals).expect("fits");
    let entries = &snapshot.entries;
    assert_eq!(names(entries), vec!["Clangd", "gone", "rust-analyzer", "Bash", "zsh", "Zed"]);

    assert_eq!((entries[0].pid, entries[0].memory_bytes), (None, 0));
    assert_eq!(entries[0].cpu_percent, cpu(0.0));
    assert_eq!(entries[0].context, None);

    assert_eq!((entries[1].pid, entries[1].memory_bytes), (Some(77), 0));
    assert_eq!(entries[1].cpu_percent, cpu(0.0));
    assert_eq!(entries[1].context, Some("old".to_string()));

    // The memory is that of the tree, the CPU usage that of the process alone.
    assert_eq!((entries[2].pid, entries[2].memory_bytes), (Some(2), 230));
    assert_eq!(entries[2].cpu_percent, cpu(20.5));
    assert_eq!(entries[2].context, Some("zed".to_string()));
    assert_eq!(entries[2].category, ProcessCategory::LanguageServer);

    assert_eq!((entries[3].pid, entries[3].memory_bytes), (None, 0));
    assert_eq!((entries[4].pid, entries[4].memory_bytes), (Some(4), 4));
    assert_eq!(entries[4].context, None);
    assert_eq!(entries[4].category, ProcessCategory::Terminal);

    assert_eq!((entries[5].pid, entries[5].memory_bytes), (Some(1), 1234));
    assert_eq!(entries[5].cpu_percent, cpu(10.0));
    assert_eq!(entries[5].category, ProcessCategory::MainProcess);

    assert_eq!(snapshot.total_memory_bytes, 230 + 4 + 1234);
    assert_eq!(snapshot.total_cpu_percent, cpu(20.5 + 1.25 + 10.0));
}

#[test]
fn snapshot_without_servers_and_terminals() {
    let records = vec![record(7, None, 8, 0.5)];
    let snapshot = take_snapshot(&records, 7, &Vec::new(), &Vec::new()).expect("fits");
    assert_eq!(names(&snapshot.entries), vec!["Zed"]);
    assert_eq!(snapshot.total_memory_bytes, 8);
    assert_eq!(snapshot.total_cpu_percent, cpu(0.5));
}

#[test]
fn snapshot_whose_memory_does_not_fit() {
    let too_large = vec![record(1, None, u64::MAX, 0.0), record(2, Some(1), 1, 0.0)];
    assert!(take_snapshot(&too_large, 1, &Vec::new(), &Vec::new()).is_none());
    // The tree of the terminal counts twice, once in that of the editor.
    let twice = vec![record(1, None, 0, 0.0), record(2, Some(1), u64::MAX / 2 + 1, 0.0)];
    assert!(take_snapshot(&twice, 1, &Vec::new(), &Vec::new()).is_some());
    assert!(take_snapshot(&twice, 1, &Vec::new(), &vec![terminal("t", Some(2))]).is_none());
}

#[test]
fn totals_of_entries() {
    let mut entries = vec![
        entry("a", ProcessCategory::Terminal, 5),
        entry("b", ProcessCategory::Terminal, 7),
        entry("c", ProcessCategory::Terminal, 0),
    ];
    entries[0].cpu_percent = cpu(0.1);
    entries[1].cpu_percent = cpu(0.2);
    entries[2].cpu_percent = cpu(16_777_216.0);
    assert_eq!(checked_memory_total(&entries), Some(12));
    let expected: f32 = entries.iter().map(|e| f32::from_bits(e.cpu_percent.bits)).sum();
    assert_eq!(total_cpu(&entries), cpu(expected));
    entries[2].memory_bytes = u64::MAX;
    assert_eq!(checked_memory_total(&entries), None);
    assert_eq!(checked_memory_total(&Vec::new()), Some(0));
}

#[test]
fn cpu_total_of_no_entries() {
    let expected: f32 = Vec::<f32>::new().into_iter().sum();
    assert_eq!(total_cpu(&Vec::new()), cpu(expected));
}

#[test]
fn refresh_before_anything_is_loaded() {
    let mut collector = ProcessCollector::new(3);
    assert!(collector.refresh(3, &vec![server("s", None, Some(9))], &vec![None]));
    assert_eq!(names(&collector.snapshot.entries), vec!["s", "Zed"]);
    assert_eq!(collector.snapshot.total_memory_bytes, 0);
    assert_eq!(collector.snapshot.entries[1].pid, Some(3));
}

#[test]
fn refresh_on_the_running_system() {
    let own = own_pid();
    let mut collector = ProcessCollector::new(own);
    collector.system.refresh_specifics(
        sysinfo::RefreshKind::nothing().with_processes(
            sysinfo::ProcessRefreshKind::nothing().without_tasks().with_memory().with_cpu(),
        ),
    );
    let terminals = vec![terminal("self", Some(own))];
    assert!(collector.refresh(own, &Vec::new(), &terminals));
    let own_process = collector.system.process(sysinfo::Pid::from_u32(own)).expect("own process");
    let entries = &collector.snapshot.entries;
    assert_eq!(names(entries), vec!["self", "Zed"]);
    assert!(entries[1].memory_bytes >= own_process.memory());
    assert_eq!(entries[0].memory_bytes, entries[1].memory_bytes);
    assert_eq!(entries[1].cpu_percent, cpu(own_process.cpu_usage()));
    assert_eq!(
        collector.snapshot.total_memory_bytes,
        entries[0].memory_bytes + entries[1].memory_bytes
    );
}

fn own_pid() -> u32 {
    sysinfo::get_current_pid().expect("a current process").as_u32()
}
