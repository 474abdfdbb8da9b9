//! What holds of process trees, told by the rows of the process table.
use crate::process_tree::{
    ancestor, descends_from, distinct_pids, lemma_table_of, lemma_tree_memory_push, parents_of,
    table_of, tree_members, tree_memory, ProcessInfo, ProcessRecord,
};
use vstd::prelude::*;

verus! {

/// Each process of `chain` has the next one as its parent.
pub open spec fn is_chain(parents: Map<u32, u32>, chain: Seq<u32>) -> bool {
    forall|i: int|
        0 <= i < chain.len() - 1 ==> parents.contains_key(#[trigger] chain[i]) && parents[chain[i]]
            == chain[i + 1]
}

/// A chain of parents leads from `pid` to `root`.
pub open spec fn leads_up(parents: Map<u32, u32>, pid: u32, root: u32) -> bool {
    exists|chain: Seq<u32>| #[trigger]
        is_chain(parents, chain) && chain.len() > 0 && chain[0] == pid && chain.last() == root
}

/// In the rows of the process table, each process of `chain` has the next one as its parent.
pub open spec fn is_row_chain(records: Seq<ProcessRecord>, chain: Seq<u32>) -> bool {
    forall|i: int|
        0 <= i < chain.len() - 1 ==> exists|k: int|
            0 <= k < records.len() && #[trigger] records[k].pid == #[trigger] chain[i]
                && records[k].info.parent == Some(chain[i + 1])
}

/// By the rows of the process table, `pid` is `root` or a descendant of it.
pub open spec fn reaches(records: Seq<ProcessRecord>, pid: u32, root: u32) -> bool {
    exists|chain: Seq<u32>| #[trigger]
        is_row_chain(records, chain) && chain.len() > 0 && chain[0] == pid && chain.last() == root
}

/// The sum of some numbers.
pub open spec fn sum_of(numbers: Seq<int>) -> int {
    numbers.fold_left(0int, |sum: int, number: int| sum + number)
}

/// The memory of the rows for which `counted` holds.
pub open spec fn row_memory(
    records: Seq<ProcessRecord>,
    counted: spec_fn(ProcessRecord) -> bool,
) -> int {
    sum_of(records.filter(counted).map_values(|record: ProcessRecord| record.info.memory as int))
}

/// A process descends from another exactly when a chain of parents leads up to it.
pub proof fn law_descent_is_a_chain_of_parents(parents: Map<u32, u32>, pid: u32, root: u32)
    ensures
        descends_from(parents, pid, root) <==> leads_up(parents, pid, root),
{
    if descends_from(parents, pid, root) {
        let steps = choose|steps: nat| #[trigger] ancestor(parents, pid, steps) == Some(root);
        lemma_chain_of_ancestors(parents, pid, root, steps);
    }
    if leads_up(parents, pid, root) {
        let chain = choose|chain: Seq<u32>| #[trigger]
            is_chain(parents, chain) && chain.len() > 0 && chain[0] == pid && chain.last() == root;
        lemma_ancestors_of_chain(parents, chain, (chain.len() - 1) as nat);
        assert(ancestor(parents, pid, (chain.len() - 1) as nat) == Some(root));
    }
}

proof fn lemma_chain_of_ancestors(parents: Map<u32, u32>, pid: u32, root: u32, steps: nat)
    requires
        ancestor(parents, pid, steps) == Some(root),
    ensures
        leads_up(parents, pid, root),
    decreases steps,
{
    if steps == 0 {
        assert(is_chain(parents, seq![pid]));
    } else {
        let below = ancestor(parents, pid, (steps - 1) as nat)->0;
        lemma_chain_of_ancestors(parents, pid, below, (steps - 1) as nat);
        let chain = choose|chain: Seq<u32>| #[trigger]
            is_chain(parents, chain) && chain.len() > 0 && chain[0] == pid && chain.last() == below;
        assert(is_chain(parents, chain.push(root)));
    }
}

proof fn lemma_ancestors_of_chain(parents: Map<u32, u32>, chain: Seq<u32>, i: nat)
    requires
        is_chain(parents, chain),
        i < chain.len(),
    ensures
        ancestor(parents, chain[0], i) == Some(chain[i as int]),
    decreases i,
{
    if i > 0 {
        lemma_ancestors_of_chain(parents, chain, (i - 1) as nat);
        assert(parents.contains_key(chain[i - 1]) && parents[chain[i - 1]] == chain[i - 1 + 1]);
    }
}

/// The parent links are those of the processes of the table that have a parent.
pub proof fn law_parent_links_are_those_of_the_table(
    table: Map<u32, ProcessInfo>,
    pid: u32,
    parent: u32,
)
    ensures
        (parents_of(table).contains_key(pid) && parents_of(table)[pid] == parent) <==> (
        table.contains_key(pid) && table[pid].parent == Some(parent)),
{
}

/// The table has what its rows say, and nothing else.
pub proof fn law_table_has_its_rows(records: Seq<ProcessRecord>, pid: u32, info: ProcessInfo)
    requires
        distinct_pids(records),
    ensures
        (table_of(records).contains_key(pid) && table_of(records)[pid] == info) <==> (exists|k: int|
            0 <= k < records.len() && (#[trigger] records[k]).pid == pid && records[k].info
                == info),
{
    lemma_table_of(records);
    if table_of(records).contains_key(pid) && table_of(records)[pid] == info {
        let k = choose|k: int| 0 <= k < records.len() && #[trigger] records[k].pid == pid;
        assert(records[k].info == info);
    }
}

/// Rows are told apart by their process identifiers.
pub proof fn law_rows_are_distinct(records: Seq<ProcessRecord>)
    ensures
        distinct_pids(records) <==> records.map_values(
            |record: ProcessRecord| record.pid,
        ).no_duplicates(),
{
    let pids = records.map_values(|record: ProcessRecord| record.pid);
    if distinct_pids(records) {
        assert forall|i: int, j: int|
            0 <= i < pids.len() && 0 <= j < pids.len() && i != j implies pids[i] != pids[j] by {
            if i < j {
                assert(records[i].pid != records[j].pid);
            } else {
                assert(records[j].pid != records[i].pid);
            }
        }
    }
    if pids.no_duplicates() {
        assert forall|i: int, j: int|
            0 <= i < j < records.len() implies #[trigger] records[i].pid
            != #[trigger] records[j].pid by {
            assert(pids[i] != pids[j]);
        }
    }
}

/// With any parent links, the memory of a tree is the sum over the rows from which a chain of
/// parents leads up to its root.
pub proof fn law_tree_memory_sums_rows(
    records: Seq<ProcessRecord>,
    parents: Map<u32, u32>,
    root: u32,
)
    requires
        distinct_pids(records),
    ensures
        tree_memory(table_of(records), parents, root) == row_memory(
            records,
            |record: ProcessRecord| leads_up(parents, record.pid, root),
        ),
    decreases records.len(),
{
    let counted = |record: ProcessRecord| leads_up(parents, record.pid, root);
    let memory = |record: ProcessRecord| record.info.memory as int;
    reveal(Seq::filter);
    if records.len() == 0 {
        assert(tree_members(table_of(records), parents, root) =~= Set::empty());
        assert(records.filter(counted).map_values(memory) =~= Seq::empty());
    } else {
        let rest = records.drop_last();
        assert(distinct_pids(rest)) by {
            assert forall|i: int, j: int|
                0 <= i < j < rest.len() implies #[trigger] rest[i].pid
                != #[trigger] rest[j].pid by {
                assert(records[i].pid != records[j].pid);
            }
        }
        law_tree_memory_sums_rows(rest, parents, root);
        lemma_tree_memory_push(records, parents, root);
        law_descent_is_a_chain_of_parents(parents, records.last().pid, root);
        let earlier = rest.filter(counted).map_values(memory);
        let all = records.filter(counted).map_values(memory);
        if counted(records.last()) {
            assert(all =~= earlier.push(records.last().info.memory as int));
            assert(all.drop_last() =~= earlier);
        } else {
            assert(all =~= earlier);
        }
    }
}

/// A process reaches another by the rows exactly when it descends from it.
pub proof fn law_descent_by_rows(records: Seq<ProcessRecord>, pid: u32, root: u32)
    requires
        distinct_pids(records),
    ensures
        descends_from(parents_of(table_of(records)), pid, root) <==> reaches(records, pid, root),
{
    let parents = parents_of(table_of(records));
    law_descent_is_a_chain_of_parents(parents, pid, root);
    lemma_table_of(records);
    assert forall|chain: Seq<u32>|
        #[trigger] is_chain(parents, chain) == is_row_chain(records, chain) by {
        if is_chain(parents, chain) {
            assert forall|i: int| 0 <= i < chain.len() - 1 implies exists|k: int|
                0 <= k < records.len() && #[trigger] records[k].pid == #[trigger] chain[i]
                    && records[k].info.parent == Some(chain[i + 1]) by {
                assert(parents.contains_key(chain[i]));
                assert(table_of(records).contains_key(chain[i]));
                let k = choose|k: int|
                    0 <= k < records.len() && #[trigger] records[k].pid == chain[i];
                assert(table_of(records)[records[k].pid] == records[k].info);
                assert(records[k].pid == chain[i]);
            }
        }
        if is_row_chain(records, chain) {
            assert forall|i: int| 0 <= i < chain.len() - 1 implies parents.contains_key(
                #[trigger] chain[i],
            ) && parents[chain[i]] == chain[i + 1] by {
                let k = choose|k: int|
                    0 <= k < records.len() && #[trigger] records[k].pid == chain[i]
                        && records[k].info.parent == Some(chain[i + 1]);
                assert(table_of(records).contains_key(records[k].pid));
                assert(table_of(records)[records[k].pid] == records[k].info);
            }
        }
    }
    if leads_up(parents, pid, root) {
        let chain = choose|chain: Seq<u32>| #[trigger]
            is_chain(parents, chain) && chain.len() > 0 && chain[0] == pid && chain.last() == root;
        assert(is_row_chain(records, chain));
    }
    if reaches(records, pid, root) {
        let chain = choose|chain: Seq<u32>| #[trigger]
            is_row_chain(records, chain) && chain.len() > 0 && chain[0] == pid && chain.last()
                == root;
        assert(is_chain(parents, chain));
    }
}

/// The memory of a process tree is that of all rows that reach its root.
pub proof fn law_tree_memory_is_of_all_descendants(records: Seq<ProcessRecord>, root: u32)
    requires
        distinct_pids(records),
    ensures
        tree_memory(table_of(records), parents_of(table_of(records)), root) == row_memory(
            records,
            |record: ProcessRecord| reaches(records, record.pid, root),
        ),
{
    let parents = parents_of(table_of(records));
    let by_links = |record: ProcessRecord| leads_up(parents, record.pid, root);
    let by_rows = |record: ProcessRecord| reaches(records, record.pid, root);
    law_tree_memory_sums_rows(records, parents, root);
    assert forall|record: ProcessRecord| #[trigger] by_links(record) == by_rows(record) by {
        law_descent_is_a_chain_of_parents(parents, record.pid, root);
        law_descent_by_rows(records, record.pid, root);
    }
    assert(by_links =~= by_rows);
}

} // verus!
