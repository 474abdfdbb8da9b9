use resource_monitor::entry::{ProcessCategory, ProcessEntry, ProcessSnapshot};
use resource_monitor::percent::CpuPercent;
use resource_monitor::report::{format_pid, format_report, format_summary};
use resource_monitor::rows::{
    heading_id, make_list, make_row, placeholder_text, ListItem, RowColor, RowIcon,
};
use resource_monitor::view::{ResourceMonitorView, SortColumn};

fn cpu(value: f32) -> CpuPercent {
    CpuPercent::from_bits(value.to_bits())
}

fn entry(
    name: &str,
    category: ProcessCategory,
    pid: Option<u32>,
    usage: f32,
    memory_bytes: u64,
) -> ProcessEntry {
    ProcessEntry {
        name: name.to_string(),
        context: None,
        category,
        pid,
        cpu_percent: cpu(usage),
        memory_bytes,
    }
}

fn snapshot(entries: Vec<ProcessEntry>) -> ProcessSnapshot {
    let total_cpu: f32 = entries.iter().map(|e| f32::from_bits(e.cpu_percent.bits)).sum();
    let total_memory_bytes = entries.iter().map(|e| e.memory_bytes).sum();
    ProcessSnapshot { entries, total_cpu_percent: cpu(total_cpu), total_memory_bytes }
}

fn sample() -> ProcessSnapshot {
    snapshot(vec![
        entry("rust-analyzer", ProcessCategory::LanguageServer, Some(30), 20.0, 300),
        entry("Clangd", ProcessCategory::LanguageServer, None, 5.0, 700),
        entry("bash", ProcessCategory::Terminal, Some(10), 20.0, 100),
        entry("Zed", ProcessCategory::MainProcess, Some(20), 90.5, 700),
    ])
}

fn sorted_names(column: SortColumn, ascending: bool, snapshot: &ProcessSnapshot) -> Vec<String> {
    let view = ResourceMonitorView { sort_column: column, sort_ascending: ascending };
    view.sorted_entries(snapshot).iter().map(|e| e.name.clone()).collect()
}

#[test]
fn panel_starts_with_the_busiest_first() {
    let view = ResourceMonitorView::new();
    assert_eq!(view.sort_column, SortColumn::Cpu);
    assert!(!view.sort_ascending);
}

#[test]
fn sorting_by_name_ignores_case() {
    let all = sample();
    assert_eq!(
        sorted_names(SortColumn::Name, true, &all),
        vec!["bash", "Clangd", "rust-analyzer", "Zed"]
    );
    assert_eq!(
        sorted_names(SortColumn::Name, false, &all),
        vec!["Zed", "rust-analyzer", "Clangd", "bash"]
    );
}

#[test]
fn sorting_by_name_uses_unicode_lowercase() {
    let all = snapshot(vec![
        entry("é", ProcessCategory::Terminal, None, 0.0, 0),
        entry("É", ProcessCategory::Terminal, None, 0.0, 1),
        entry("ÉA", ProcessCategory::Terminal, None, 0.0, 2),
        entry("z", ProcessCategory::Terminal, None, 0.0, 3),
    ]);
    assert_eq!(sorted_names(SortColumn::Name, true, &all), vec!["z", "é", "É", "ÉA"]);
    assert_eq!(sorted_names(SortColumn::Name, false, &all), vec!["ÉA", "é", "É", "z"]);
}

#[test]
fn sorting_by_pid_puts_missing_ones_first() {
    let all = sample();
    assert_eq!(
        sorted_names(SortColumn::Pid, true, &all),
        vec!["Clangd", "bash", "Zed", "rust-analyzer"]
    );
    assert_eq!(
        sorted_names(SortColumn::Pid, false, &all),
        vec!["rust-analyzer", "Zed", "bash", "Clangd"]
    );
}

#[test]
fn equal_entries_keep_their_order_in_both_directions() {
    let all = sample();
    assert_eq!(
        sorted_names(SortColumn::Cpu, true, &all),
        vec!["Clangd", "rust-analyzer", "bash", "Zed"]
    );
    assert_eq!(
        sorted_names(SortColumn::Cpu, false, &all),
        vec!["Zed", "rust-analyzer", "bash", "Clangd"]
    );
    assert_eq!(
        sorted_names(SortColumn::Memory, false, &all),
        vec!["Clangd", "Zed", "rust-analyzer", "bash"]
    );
    assert_eq!(
        sorted_names(SortColumn::Memory, true, &all),
        vec!["bash", "rust-analyzer", "Clangd", "Zed"]
    );
}

#[test]
fn the_direction_turns_a_list_without_ties() {
    let all = sample();
    let mut ascending = sorted_names(SortColumn::Pid, true, &all);
    ascending.reverse();
    assert_eq!(ascending, sorted_names(SortColumn::Pid, false, &all));
}

#[test]
fn sorting_agrees_with_the_standard_sort() {
    let mut entries = Vec::new();
    let mut seed: u32 = 12345;
    for _ in 0..200 {
        seed = seed.wrapping_mul(1_664_525).wrapping_add(1_013_904_223);
        let pid = if seed % 5 == 0 { None } else { Some(seed % 40) };
        entries.push(entry(
            &format!("n{}", seed % 23),
            ProcessCategory::Terminal,
            pid,
            (seed % 17) as f32,
            (seed % 31) as u64,
        ));
    }
    let all = snapshot(entries);
    for ascending in [true, false] {
        for column in [SortColumn::Name, SortColumn::Pid, SortColumn::Cpu, SortColumn::Memory] {
            let mut expected = all.entries.clone();
            expected.sort_by(|a, b| {
                let order = match column {
                    SortColumn::Name => a.name.to_lowercase().cmp(&b.name.to_lowercase()),
                    SortColumn::Pid => a.pid.cmp(&b.pid),
                    SortColumn::Cpu => f32::from_bits(a.cpu_percent.bits)
                        .partial_cmp(&f32::from_bits(b.cpu_percent.bits))
                        .unwrap(),
                    SortColumn::Memory => a.memory_bytes.cmp(&b.memory_bytes),
                };
                if ascending { order } else { order.reverse() }
            });
            let view = ResourceMonitorView { sort_column: column, sort_ascending: ascending };
            assert_eq!(
                format!("{:?}", view.sorted_entries(&all)),
                format!("{:?}", expected)
            );
        }
    }
}

#[test]
fn sorting_by_cpu_keeps_entries_that_have_no_number() {
    let all = snapshot(vec![
        entry("a", ProcessCategory::Terminal, None, 3.0, 0),
        entry("b", ProcessCategory::Terminal, None, f32::NAN, 0),
        entry("c", ProcessCategory::Terminal, None, 1.0, 0),
    ]);
    let mut names = sorted_names(SortColumn::Cpu, true, &all);
    names.sort();
    assert_eq!(names, vec!["a", "b", "c"]);
    // Where nothing is a number, nothing moves.
    let none = snapshot(vec![
        entry("b", ProcessCategory::Terminal, None, f32::NAN, 0),
        entry("a", ProcessCategory::Terminal, None, f32::NAN, 0),
    ]);
    assert_eq!(sorted_names(SortColumn::Cpu, true, &none), vec!["b", "a"]);
}

#[test]
fn clicks_on_headings() {
    let mut view = ResourceMonitorView::new();
    view.toggle_sort(SortColumn::Cpu);
    assert_eq!((view.sort_column, view.sort_ascending), (SortColumn::Cpu, true));
    view.toggle_sort(SortColumn::Cpu);
    assert_eq!((view.sort_column, view.sort_ascending), (SortColumn::Cpu, false));
    view.toggle_sort(SortColumn::Cpu);
    view.toggle_sort(SortColumn::Name);
    assert_eq!((view.sort_column, view.sort_ascending), (SortColumn::Name, false));
    view.toggle_sort(SortColumn::Name);
    assert_eq!((view.sort_column, view.sort_ascending), (SortColumn::Name, true));
}

#[test]
fn only_the_sorted_column_is_marked() {
    let mut view = ResourceMonitorView::new();
    assert_eq!(view.sort_indicator(SortColumn::Cpu), " ▼");
    assert_eq!(view.sort_indicator(SortColumn::Name), "");
    assert_eq!(view.sort_indicator(SortColumn::Pid), "");
    assert_eq!(view.sort_indicator(SortColumn::Memory), "");
    view.toggle_sort(SortColumn::Cpu);
    assert_eq!(view.sort_indicator(SortColumn::Cpu), " ▲");
}

#[test]
fn column_headings() {
    let view = ResourceMonitorView { sort_column: SortColumn::Memory, sort_ascending: true };
    assert_eq!(view.column_heading(SortColumn::Name), "Name");
    assert_eq!(view.column_heading(SortColumn::Pid), "PID");
    assert_eq!(view.column_heading(SortColumn::Cpu), "CPU");
    assert_eq!(view.column_heading(SortColumn::Memory), "Memory ▲");
}

#[test]
fn pid_texts() {
    assert_eq!(format_pid(Some(0)), "0");
    assert_eq!(format_pid(Some(u32::MAX)), "4294967295");
    assert_eq!(format_pid(None), "—");
}

#[test]
fn summary_lines() {
    assert_eq!(format_summary(&sample()), "— 4 processes · 135.5% CPU · 2 KB");
    let one = snapshot(vec![entry("Zed", ProcessCategory::MainProcess, Some(1), 0.25, 1)]);
    assert_eq!(format_summary(&one), "— 1 process · 0.2% CPU · 1 B");
    assert_eq!(
        format_summary(&ProcessSnapshot::default()),
        "— 0 processes · 0.0% CPU · 0 B"
    );
}

#[test]
fn report_in_the_shown_order() {
    let mut all = sample();
    all.entries[0].context = Some("zed".to_string());
    let view = ResourceMonitorView { sort_column: SortColumn::Pid, sort_ascending: true };
    let expected = concat_lines(&[
        "Zed Resource Monitor Report",
        "Total: 135.5% CPU · 2 KB",
        "",
        "",
        "Language Servers:",
        "  Clangd PID:— CPU:5.0% Mem:700 B",
        "",
        "Terminals:",
        "  bash PID:10 CPU:20.0% Mem:100 B",
        "",
        "Zed:",
        "  Zed PID:20 CPU:90.5% Mem:700 B",
        "",
        "Language Servers:",
        "  rust-analyzer (zed) PID:30 CPU:20.0% Mem:300 B",
    ]);
    assert_eq!(view.copy_report(&all), expected);
}

fn concat_lines(lines: &[&str]) -> String {
    let mut text = String::new();
    for line in lines {
        text.push_str(line);
        text.push('\n');
    }
    text
}

#[test]
fn report_without_entries() {
    assert_eq!(
        format_report(&Vec::new(), cpu(1.0), 1024),
        "Zed Resource Monitor Report\nTotal: 1.0% CPU · 1 KB\n\n"
    );
}

#[test]
fn report_heads_a_group_once() {
    let report = format_report(&sample().entries, cpu(0.0), 0);
    assert_eq!(report.matches("Language Servers:").count(), 1);
    assert_eq!(report.matches("PID:").count(), 4);
}

#[test]
fn rows_of_entries() {
    let mut alarming = entry("node", ProcessCategory::LanguageServer, Some(5), 50.5, 2_147_483_649);
    alarming.context = Some("web".to_string());
    let row = make_row(&alarming, 3);
    assert_eq!(row.index, 3);
    assert_eq!((row.icon, row.icon_color), (RowIcon::FileCode, RowColor::Info));
    assert_eq!(row.name, "node");
    assert_eq!(row.context, Some("(web)".to_string()));
    assert_eq!(row.pid, "5");
    assert_eq!(row.cpu, "50.5%");
    assert_eq!(row.cpu_color, RowColor::Error);
    assert_eq!(row.memory, "2.0 GB");
    assert_eq!(row.memory_color, RowColor::Error);

    let warning = make_row(&entry("sh", ProcessCategory::Terminal, None, 50.0, 2_147_483_648), 0);
    assert_eq!((warning.icon, warning.icon_color), (RowIcon::Terminal, RowColor::Normal));
    assert_eq!(warning.context, None);
    assert_eq!(warning.pid, "—");
    assert_eq!(warning.cpu_color, RowColor::Warning);
    assert_eq!(warning.memory_color, RowColor::Warning);

    let calm = make_row(&entry("Zed", ProcessCategory::MainProcess, None, 20.0, 524_288_000), 1);
    assert_eq!((calm.icon, calm.icon_color), (RowIcon::Server, RowColor::Accent));
    assert_eq!(calm.cpu_color, RowColor::Muted);
    assert_eq!(calm.memory_color, RowColor::Normal);
    assert_eq!(calm.memory, "500.0 MB");
}

fn outline(items: &[ListItem]) -> Vec<String> {
    items
        .iter()
        .map(|item| match item {
            ListItem::Heading(category) => format!("# {}", category.label()),
            ListItem::Row(row) => format!("{} {}", row.index, row.name),
            ListItem::Placeholder => placeholder_text().to_string(),
        })
        .collect()
}

#[test]
fn list_in_the_shown_order() {
    let view = ResourceMonitorView { sort_column: SortColumn::Pid, sort_ascending: true };
    assert_eq!(
        outline(&view.render_list(&sample())),
        vec![
            "# Language Servers",
            "0 Clangd",
            "# Terminals",
            "1 bash",
            "# Zed",
            "2 Zed",
            "# Language Servers",
            "3 rust-analyzer",
        ]
    );
}

#[test]
fn list_groups_neighbours() {
    assert_eq!(
        outline(&make_list(&sample().entries)),
        vec![
            "# Language Servers",
            "0 rust-analyzer",
            "1 Clangd",
            "# Terminals",
            "2 bash",
            "# Zed",
            "3 Zed",
        ]
    );
}

#[test]
fn list_without_entries() {
    assert_eq!(outline(&make_list(&Vec::new())), vec!["Collecting process data…"]);
}

#[test]
fn heading_identifiers() {
    for category in [
        ProcessCategory::LanguageServer,
        ProcessCategory::Terminal,
        ProcessCategory::MainProcess,
    ] {
        assert_eq!(heading_id(category), format!("cat-{:?}", category));
    }
}
