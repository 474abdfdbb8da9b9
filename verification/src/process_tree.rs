//! The process table and the tree that its parent links form.
use crate::percent::CpuPercent;
use std::collections::{HashMap, HashSet};
use sysinfo::System;
use vstd::prelude::*;

verus! {

// The process table

/// What the process table holds of one process.
#[derive(Debug, Clone, Copy)]
pub struct ProcessInfo {
    pub parent: Option<u32>,
    pub memory: u64,
    pub cpu: CpuPercent,
}

/// One row of the process table.
#[derive(Debug, Clone, Copy)]
pub struct ProcessRecord {
    pub pid: u32,
    pub info: ProcessInfo,
}

/// The system information of the `sysinfo` crate, as an opaque type.
#[verifier::external_type_specification]
#[verifier::external_body]
pub struct ExSystem(System);

/// The processes that `system` holds since its last refresh, by process identifier.
pub uninterp spec fn process_table(system: System) -> Map<u32, ProcessInfo>;

/// `sysinfo::System::new` loads nothing, so no process is held before the first refresh.
pub assume_specification[ System::new ]() -> (system: System)
    ensures
        process_table(system).dom() == Set::<u32>::empty(),
;

/// No process occurs twice.
pub open spec fn distinct_pids(records: Seq<ProcessRecord>) -> bool {
    forall|i: int, j: int|
        0 <= i < j < records.len() ==> #[trigger] records[i].pid != #[trigger] records[j].pid
}

/// The table that has the given rows.
pub open spec fn table_of(records: Seq<ProcessRecord>) -> Map<u32, ProcessInfo>
    decreases records.len(),
{
    if records.len() == 0 {
        Map::empty()
    } else {
        table_of(records.drop_last()).insert(records.last().pid, records.last().info)
    }
}

/// Hands out the rows of the process table.
///
/// `sysinfo::System::processes` gives the held processes as a map by process identifier. The
/// claim is that every held process comes out once, in no particular order, with what
/// `Process::parent`, `Process::memory` and `Process::cpu_usage` return for it. Identifiers are
/// turned into `u32` by `Pid::as_u32`, which keeps the 32 bits that they have.
#[verifier::external_body]
pub(crate) fn process_records(system: &System) -> (records: Vec<ProcessRecord>)
    ensures
        distinct_pids(records@),
        table_of(records@) == process_table(*system),
{
    system.processes().iter().map(|(pid, process)| ProcessRecord {
        pid: pid.as_u32(),
        info: ProcessInfo {
            parent: process.parent().map(|parent| parent.as_u32()),
            memory: process.memory(),
            cpu: CpuPercent { bits: process.cpu_usage().to_bits() },
        },
    }).collect()
}

// Ancestry

/// The process reached from `pid` by `steps` parent links, if there are that many.
pub open spec fn ancestor(parents: Map<u32, u32>, pid: u32, steps: nat) -> Option<u32>
    decreases steps,
{
    if steps == 0 {
        Some(pid)
    } else {
        match ancestor(parents, pid, (steps - 1) as nat) {
            Some(below) if parents.contains_key(below) => Some(parents[below]),
            _ => None,
        }
    }
}

/// `pid` is `root`, or a chain of parent links leads from `pid` to `root`.
pub open spec fn descends_from(parents: Map<u32, u32>, pid: u32, root: u32) -> bool {
    exists|steps: nat| #[trigger] ancestor(parents, pid, steps) == Some(root)
}

/// A chain of parent links can be walked in two parts.
pub proof fn lemma_ancestor_split(parents: Map<u32, u32>, pid: u32, first: nat, more: nat)
    ensures
        ancestor(parents, pid, first) matches Some(mid) ==> ancestor(parents, pid, first + more)
            == ancestor(parents, mid, more),
        ancestor(parents, pid, first) is None ==> ancestor(parents, pid, first + more) is None,
    decreases more,
{
    if more > 0 {
        lemma_ancestor_split(parents, pid, first, (more - 1) as nat);
        assert((first + more - 1) as nat == first + (more - 1) as nat);
    }
}

/// Once a chain has come back to a process it has met before, it never leaves what it has met.
proof fn lemma_chain_stays_in_cycle(
    parents: Map<u32, u32>,
    pid: u32,
    start: nat,
    len: nat,
    steps: nat,
)
    requires
        0 < len,
        ancestor(parents, pid, start) is Some,
        ancestor(parents, pid, start) == ancestor(parents, pid, start + len),
    ensures
        exists|k: nat| k < start + len && #[trigger] ancestor(parents, pid, k) == ancestor(
            parents,
            pid,
            steps,
        ),
    decreases steps,
{
    if steps < start + len {
    } else {
        let back = (steps - len) as nat;
        lemma_ancestor_split(parents, pid, start, (back - start) as nat);
        lemma_ancestor_split(parents, pid, start + len, (back - start) as nat);
        assert(start + (back - start) as nat == back);
        assert(start + len + (back - start) as nat == steps);
        lemma_chain_stays_in_cycle(parents, pid, start, len, back);
    }
}

/// Walks the parent chain from `pid` up to `root_pid`.
///
/// Returns `true` if `pid` is `root_pid` or one of its descendants. A chain that runs into a
/// cycle without meeting `root_pid` ends the walk.
pub fn is_descendant_of(pid: u32, root_pid: u32, parent_map: &HashMap<u32, u32>) -> (found: bool)
    ensures
        found == descends_from(parent_map@, pid, root_pid),
{
    let mut current: u32 = pid;
    let mut visited: HashSet<u32> = HashSet::new();
    let ghost parents = parent_map@;
    let ghost mut steps: nat = 0;
    while current != root_pid
        invariant
            parents == parent_map@,
            parents.dom().finite(),
            ancestor(parents, pid, steps) == Some(current),
            visited@.finite(),
            visited@.subset_of(parents.dom()),
            forall|p: u32| #[trigger]
                visited@.contains(p) ==> exists|k: nat|
                    k < steps && #[trigger] ancestor(parents, pid, k) == Some(p),
            forall|k: nat| k < steps ==> #[trigger] ancestor(parents, pid, k) != Some(root_pid),
            forall|k: nat| k < steps ==> #[trigger] ancestor(parents, pid, k) is Some,
        decreases parents.dom().len() - visited@.len(),
    {
        let ghost seen = visited@;
        if !visited.insert(current) {
            proof {
                let k = choose|k: nat|
                    k < steps && #[trigger] ancestor(parents, pid, k) == Some(current);
                assert forall|n: nat| #[trigger]
                    ancestor(parents, pid, n) != Some(root_pid) by {
                    lemma_chain_stays_in_cycle(parents, pid, k, (steps - k) as nat, n);
                    let m = choose|m: nat|
                        m < k + (steps - k) as nat && #[trigger] ancestor(parents, pid, m)
                            == ancestor(parents, pid, n);
                    assert(m < steps);
                }
            }
            return false;
        }
        match parent_map.get(&current) {
            Some(parent) => {
                proof {
                    assert(parents.dom().contains(current));
                    vstd::set_lib::lemma_len_subset(visited@, parents.dom());
                    assert(ancestor(parents, pid, steps + 1) == Some(*parent));
                    assert forall|p: u32| #[trigger] visited@.contains(p) implies exists|k: nat|
                        k < steps + 1 && #[trigger] ancestor(parents, pid, k) == Some(p) by {
                        if p != current {
                            assert(seen.contains(p));
                            let k = choose|k: nat|
                                k < steps && #[trigger] ancestor(parents, pid, k) == Some(p);
                            assert(k < steps + 1);
                        } else {
                            assert(ancestor(parents, pid, steps) == Some(p));
                        }
                    }
                    steps = steps + 1;
                }
                current = *parent;
            },
            None => {
                proof {
                    assert forall|n: nat| #[trigger]
                        ancestor(parents, pid, n) != Some(root_pid) by {
                        if n > steps {
                            lemma_ancestor_split(parents, pid, steps + 1, (n - steps - 1) as nat);
                            assert(ancestor(parents, pid, steps + 1) is None);
                            assert(steps + 1 + (n - steps - 1) as nat == n);
                        }
                    }
                }
                return false;
            },
        }
    }
    true
}

// Parent links and tree sizes

/// The parent links of a table: each process that has a parent, with that parent.
pub open spec fn parents_of(table: Map<u32, ProcessInfo>) -> Map<u32, u32> {
    Map::new(
        |pid: u32| table.contains_key(pid) && table[pid].parent is Some,
        |pid: u32| table[pid].parent->0,
    )
}

/// The processes of `table` that are `root` or descend from it.
pub open spec fn tree_members(
    table: Map<u32, ProcessInfo>,
    parents: Map<u32, u32>,
    root: u32,
) -> Set<u32> {
    table.dom().filter(|pid: u32| descends_from(parents, pid, root))
}

/// The memory of the processes `pids` together.
pub open spec fn memory_sum(table: Map<u32, ProcessInfo>, pids: Set<u32>) -> nat
    decreases pids.len(),
{
    if pids.finite() && pids.len() > 0 {
        let pid = pids.choose();
        table[pid].memory as nat + memory_sum(table, pids.remove(pid))
    } else {
        0
    }
}

/// The memory of `root` and of all its descendants in `table`.
pub open spec fn tree_memory(
    table: Map<u32, ProcessInfo>,
    parents: Map<u32, u32>,
    root: u32,
) -> nat {
    memory_sum(table, tree_members(table, parents, root))
}

/// Any member can be the one that is counted first.
pub proof fn lemma_memory_sum_remove(table: Map<u32, ProcessInfo>, pids: Set<u32>, pid: u32)
    requires
        pids.finite(),
        pids.contains(pid),
    ensures
        memory_sum(table, pids) == table[pid].memory + memory_sum(table, pids.remove(pid)),
    decreases pids.len(),
{
    let first = pids.choose();
    if first != pid {
        lemma_memory_sum_remove(table, pids.remove(first), pid);
        assert(pids.remove(first).remove(pid) =~= pids.remove(pid).remove(first));
        lemma_memory_sum_remove(table, pids.remove(pid), first);
    }
}

/// The sum reads nothing of the table but the counted processes.
proof fn lemma_memory_sum_agrees(
    table: Map<u32, ProcessInfo>,
    other: Map<u32, ProcessInfo>,
    pids: Set<u32>,
)
    requires
        forall|pid: u32| #[trigger] pids.contains(pid) ==> table[pid] == other[pid],
    ensures
        memory_sum(table, pids) == memory_sum(other, pids),
    decreases pids.len(),
{
    if pids.finite() && pids.len() > 0 {
        assert(pids.contains(pids.choose()));
        lemma_memory_sum_agrees(table, other, pids.remove(pids.choose()));
    }
}

/// A table holds its rows and nothing else.
pub proof fn lemma_table_of(records: Seq<ProcessRecord>)
    requires
        distinct_pids(records),
    ensures
        table_of(records).dom().finite(),
        forall|pid: u32| #[trigger]
            table_of(records).contains_key(pid) <==> exists|i: int|
                0 <= i < records.len() && #[trigger] records[i].pid == pid,
        forall|i: int|
            0 <= i < records.len() ==> table_of(records)[(#[trigger] records[i]).pid]
                == records[i].info,
    decreases records.len(),
{
    if records.len() > 0 {
        let rest = records.drop_last();
        lemma_table_of(rest);
        assert forall|pid: u32| #[trigger]
            table_of(records).contains_key(pid) implies exists|i: int|
            0 <= i < records.len() && #[trigger] records[i].pid == pid by {
            if pid == records.last().pid {
                assert(records[records.len() - 1].pid == pid);
            } else {
                assert(table_of(rest).contains_key(pid));
                let i = choose|i: int| 0 <= i < rest.len() && #[trigger] rest[i].pid == pid;
                assert(records[i].pid == pid);
            }
        }
        assert forall|i: int| 0 <= i < records.len() implies table_of(records).contains_key(
            (#[trigger] records[i]).pid,
        ) && table_of(records)[records[i].pid] == records[i].info by {
            if i < rest.len() {
                assert(rest[i] == records[i]);
                assert(table_of(rest).contains_key(rest[i].pid));
            }
        }
    }
}

/// One more row adds its memory to the trees that it belongs to.
pub proof fn lemma_tree_memory_push(
    records: Seq<ProcessRecord>,
    parents: Map<u32, u32>,
    root: u32,
)
    requires
        distinct_pids(records),
        records.len() > 0,
    ensures
        tree_memory(table_of(records), parents, root) == tree_memory(
            table_of(records.drop_last()),
            parents,
            root,
        ) + (if descends_from(parents, records.last().pid, root) {
            records.last().info.memory as nat
        } else {
            0
        }),
{
    let rest = records.drop_last();
    let last = records.last();
    let table = table_of(records);
    let before = table_of(rest);
    lemma_table_of(records);
    lemma_table_of(rest);
    assert(!before.contains_key(last.pid)) by {
        if before.contains_key(last.pid) {
            let i = choose|i: int| 0 <= i < rest.len() && #[trigger] rest[i].pid == last.pid;
            assert(records[i].pid == records[records.len() - 1].pid);
        }
    }
    let members = tree_members(table, parents, root);
    let old_members = tree_members(before, parents, root);
    lemma_memory_sum_agrees(table, before, old_members);
    if descends_from(parents, last.pid, root) {
        assert(members.contains(last.pid));
        assert(members.remove(last.pid) =~= old_members);
        lemma_memory_sum_remove(table, members, last.pid);
    } else {
        assert(members =~= old_members);
    }
}

/// The CPU usage of one process among the given rows.
pub fn find_cpu(records: &Vec<ProcessRecord>, pid: u32) -> (cpu: Option<CpuPercent>)
    requires
        distinct_pids(records@),
    ensures
        cpu == (if table_of(records@).contains_key(pid) {
            Some(table_of(records@)[pid].cpu)
        } else {
            None
        }),
{
    proof {
        lemma_table_of(records@);
    }
    let mut i: usize = 0;
    while i < records.len()
        invariant
            i <= records.len(),
            forall|k: int| 0 <= k < i ==> (#[trigger] records@[k]).pid != pid,
            forall|k: int|
                0 <= k < records.len() ==> table_of(records@).contains_key(
                    (#[trigger] records@[k]).pid,
                ) && table_of(records@)[records@[k].pid] == records@[k].info,
        decreases records.len() - i,
    {
        if records[i].pid == pid {
            return Some(records[i].info.cpu);
        }
        i = i + 1;
    }
    None
}

/// The parent links of the given rows.
pub fn parent_links(records: &Vec<ProcessRecord>) -> (parent_map: HashMap<u32, u32>)
    requires
        distinct_pids(records@),
    ensures
        parent_map@ == parents_of(table_of(records@)),
{
    let mut parent_map: HashMap<u32, u32> = HashMap::new();
    let mut i: usize = 0;
    assert(parent_map@ =~= parents_of(table_of(records@.take(0))));
    while i < records.len()
        invariant
            i <= records.len(),
            distinct_pids(records@),
            parent_map@ == parents_of(table_of(records@.take(i as int))),
        decreases records.len() - i,
    {
        let record = records[i];
        let ghost next = records@.take(i + 1);
        proof {
            assert(next.drop_last() =~= records@.take(i as int));
            lemma_table_of(records@.take(i as int));
            assert(!table_of(next.drop_last()).contains_key(record.pid)) by {
                if table_of(next.drop_last()).contains_key(record.pid) {
                    let k = choose|k: int|
                        0 <= k < i && #[trigger] next.drop_last()[k].pid == record.pid;
                    assert(records@[k].pid == records@[i as int].pid);
                }
            }
        }
        if let Some(parent) = record.info.parent {
            parent_map.insert(record.pid, parent);
        }
        assert(parent_map@ =~= parents_of(table_of(next)));
        i = i + 1;
    }
    assert(records@.take(i as int) =~= records@);
    parent_map
}

/// Sums the memory of `root_pid` and all its descendants among the given rows.
///
/// There is no result when the sum does not fit.
pub fn checked_tree_memory(
    records: &Vec<ProcessRecord>,
    root_pid: u32,
    parent_map: &HashMap<u32, u32>,
) -> (memory: Option<u64>)
    requires
        distinct_pids(records@),
    ensures
        memory == (if tree_memory(table_of(records@), parent_map@, root_pid) <= u64::MAX {
            Some(tree_memory(table_of(records@), parent_map@, root_pid) as u64)
        } else {
            None
        }),
{
    let mut sum: u128 = 0;
    let mut i: usize = 0;
    assert(tree_members(table_of(records@.take(0)), parent_map@, root_pid) =~= Set::empty());
    while i < records.len()
        invariant
            i <= records.len(),
            distinct_pids(records@),
            sum == tree_memory(table_of(records@.take(i as int)), parent_map@, root_pid),
            sum <= i * 0xffff_ffff_ffff_ffff,
        decreases records.len() - i,
    {
        let record = records[i];
        proof {
            let next = records@.take(i + 1);
            assert(next.drop_last() =~= records@.take(i as int));
            lemma_tree_memory_push(next, parent_map@, root_pid);
        }
        if is_descendant_of(record.pid, root_pid, parent_map) {
            sum = sum + record.info.memory as u128;
        }
        i = i + 1;
    }
    assert(records@.take(i as int) =~= records@);
    if sum <= 0xffff_ffff_ffff_ffff {
        Some(sum as u64)
    } else {
        None
    }
}

} // verus!
