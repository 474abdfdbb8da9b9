# resource_monitor

The logic of a panel that shows what the processes of an editor use: the editor itself, its
language servers and its terminals, with CPU usage and memory. The library is written in Rust and
verified with Verus.

- `src/process_tree.rs`: the process table, parent links, and the memory of process trees
- `src/percent.rs`, `src/percent_sum.rs`: CPU percentages as single-precision bit patterns, their
  order, text and sums
- `src/rounding.rs`, `src/text.rs`: rounding half to even, decimal numerals, byte sizes
- `src/names.rs`, `src/order.rs`: the order of names, and a stable sort
- `src/entry.rs`, `src/collector.rs`: entries, snapshots, and how a snapshot is taken
- `src/view.rs`, `src/report.rs`, `src/rows.rs`: the state of the panel, the report, the list
- `src/laws.rs`: what holds of all of these together
- `tests/`: tests on concrete values
- `app/`: the panel itself, on top of the library

The operating system is read through the `sysinfo` crate. The library trusts what is stated of
`sysinfo::System::new`, `sysinfo::System::processes` and `str::to_lowercase`; everything else in
`src/` is proved.
