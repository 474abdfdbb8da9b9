use resource_monitor::collector::ProcessCollector;
use resource_monitor::percent::CpuPercent;
use resource_monitor::process_tree::{
    checked_tree_memory, find_cpu, is_descendant_of, parent_links, ProcessInfo, ProcessRecord,
};
use std::collections::HashMap;

fn record(pid: u32, parent: Option<u32>, memory: u64) -> ProcessRecord {
    ProcessRecord {
        pid,
        info: ProcessInfo { parent, memory, cpu: CpuPercent::from_bits((pid as f32).to_bits()) },
    }
}

fn links(pairs: &[(u32, u32)]) -> HashMap<u32, u32> {
    pairs.iter().copied().collect()
}

#[test]
fn a_process_descends_from_itself() {
    assert!(is_descendant_of(7, 7, &links(&[])));
    assert!(is_descendant_of(7, 7, &links(&[(7, 3)])));
}

#[test]
fn descendants_at_any_depth() {
    let parents = links(&[(2, 1), (3, 2), (4, 3), (9, 8)]);
    assert!(is_descendant_of(2, 1, &parents));
    assert!(is_descendant_of(3, 1, &parents));
    assert!(is_descendant_of(4, 1, &parents));
    assert!(is_descendant_of(4, 2, &parents));
    assert!(!is_descendant_of(1, 4, &parents));
    assert!(!is_descendant_of(9, 1, &parents));
    assert!(!is_descendant_of(5, 1, &parents));
}

#[test]
fn descent_is_transitive() {
    let parents = links(&[(2, 1), (3, 2)]);
    assert!(is_descendant_of(3, 2, &parents));
    assert!(is_descendant_of(2, 1, &parents));
    assert!(is_descendant_of(3, 1, &parents));
}

#[test]
fn cycles_end_the_walk() {
    let parents = links(&[(1, 2), (2, 3), (3, 1), (4, 3), (5, 5)]);
    assert!(!is_descendant_of(1, 9, &parents));
    assert!(!is_descendant_of(4, 9, &parents));
    assert!(!is_descendant_of(5, 9, &parents));
    assert!(is_descendant_of(4, 2, &parents));
    assert!(is_descendant_of(1, 3, &parents));
    assert!(!is_descendant_of(1, 4, &parents));
}

#[test]
fn parent_links_leave_out_orphans() {
    let records = vec![record(1, None, 0), record(2, Some(1), 0), record(3, Some(99), 0)];
    assert_eq!(parent_links(&records), links(&[(2, 1), (3, 99)]));
    assert!(parent_links(&Vec::new()).is_empty());
}

#[test]
fn memory_of_a_tree() {
    let records = vec![
        record(10, None, 100),
        record(11, Some(10), 20),
        record(12, Some(11), 3),
        record(20, None, 5000),
        record(21, Some(20), 700),
    ];
    let parents = parent_links(&records);
    assert_eq!(checked_tree_memory(&records, 10, &parents), Some(123));
    assert_eq!(checked_tree_memory(&records, 11, &parents), Some(23));
    assert_eq!(checked_tree_memory(&records, 20, &parents), Some(5700));
    assert_eq!(checked_tree_memory(&records, 77, &parents), Some(0));
}

#[test]
fn memory_of_a_root_that_is_not_listed() {
    let records = vec![record(2, Some(1), 40), record(3, Some(2), 2)];
    let parents = parent_links(&records);
    assert_eq!(checked_tree_memory(&records, 1, &parents), Some(42));
}

#[test]
fn memory_of_a_subtree_is_no_larger() {
    let records = vec![record(1, None, 5), record(2, Some(1), 6), record(3, Some(2), 7)];
    let parents = parent_links(&records);
    let whole = checked_tree_memory(&records, 1, &parents);
    let part = checked_tree_memory(&records, 2, &parents);
    assert_eq!((part, whole), (Some(13), Some(18)));
    assert!(part <= whole);
}

#[test]
fn memory_that_does_not_fit() {
    let records = vec![record(1, None, u64::MAX), record(2, Some(1), 1)];
    let parents = parent_links(&records);
    assert_eq!(checked_tree_memory(&records, 1, &parents), None);
    assert_eq!(checked_tree_memory(&records, 2, &parents), Some(1));
    let just_fits = vec![record(1, None, u64::MAX - 1), record(2, Some(1), 1)];
    assert_eq!(checked_tree_memory(&just_fits, 1, &parents), Some(u64::MAX));
}

#[test]
fn cpu_of_a_listed_process() {
    let records = vec![record(1, None, 0), record(2, Some(1), 0)];
    assert_eq!(find_cpu(&records, 2), Some(CpuPercent::from_bits(2.0f32.to_bits())));
    assert_eq!(find_cpu(&records, 3), None);
}

#[test]
fn new_system_information_is_empty() {
    let collector = ProcessCollector::new(1);
    assert!(collector.build_parent_map().is_empty());
    assert_eq!(collector.checked_memory_for_tree(1, &HashMap::new()), Some(0));
}

fn refreshed_collector() -> ProcessCollector {
    let mut collector = ProcessCollector::new(own_pid());
    collector.system.refresh_specifics(
        sysinfo::RefreshKind::nothing().with_processes(
            sysinfo::ProcessRefreshKind::nothing().without_tasks().with_memory().with_cpu(),
        ),
    );
    collector
}

#[test]
fn parent_map_of_the_running_system() {
    let collector = refreshed_collector();
    let mut expected: HashMap<u32, u32> = HashMap::new();
    for (pid, process) in collector.system.processes() {
        if let Some(parent) = process.parent() {
            expected.insert(pid.as_u32(), parent.as_u32());
        }
    }
    assert_eq!(collector.build_parent_map(), expected);
}

#[test]
fn own_memory_on_the_running_system() {
    let collector = refreshed_collector();
    let own = own_pid();
    let own_process = collector.system.process(sysinfo::Pid::from_u32(own)).expect("own process");
    assert!(own_process.memory() > 0);
    let parents = collector.build_parent_map();
    let tree = collector.memory_for_tree(own, &parents);
    assert!(tree >= own_process.memory());
    assert_eq!(collector.checked_memory_for_tree(own, &parents), Some(tree));
    // Without links every process is a tree of its own.
    assert_eq!(collector.memory_for_tree(own, &HashMap::new()), own_process.memory());
}

fn own_pid() -> u32 {
    sysinfo::get_current_pid().expect("a current process").as_u32()
}
