//! What holds of the list, the report and the summary, told by what they show.
use crate::entry::{entry_views, EntryView, ProcessCategory, ProcessEntry};
use crate::laws::sorting::law_cpu_order_is_that_of_patterns;
use crate::percent::{one_percent, scaled_magnitude, CpuPercent};
use crate::report::{
    entry_line, entry_lines, heading_line, pid_text, report_head, starts_group, summary,
};
use crate::rows::{
    cpu_color, grouped_rows, item_views, list_of, row_of, ItemView, ListItem, Row, RowColor,
    RowIcon,
};
use crate::text::{bytes_text, decimal};
use vstd::arithmetic::power2::{lemma2_to64, lemma_pow2_adds, pow2};
use vstd::prelude::*;

verus! {

// Rows

/// More than fifty percent are the numbers whose patterns lie above that of fifty, and likewise for
/// twenty.
pub proof fn law_cpu_thresholds(cpu: CpuPercent)
    ensures
        cpu.above_whole(50) <==> 0x4248_0000 < cpu.bits <= 0x7f80_0000,
        cpu.above_whole(20) <==> 0x41a0_0000 < cpu.bits <= 0x7f80_0000,
{
    let fifty = CpuPercent { bits: 0x4248_0000 };
    let twenty = CpuPercent { bits: 0x41a0_0000 };
    lemma2_to64();
    lemma_pow2_adds(18, 131);
    lemma_pow2_adds(19, 130);
    assert(fifty.value() == 50 * one_percent()) by {
        assert(scaled_magnitude(0x4248_0000) == 0xc8_0000 * pow2(131));
        assert(0xc8_0000 * pow2(131) == 50 * (0x4_0000 * pow2(131)));
    }
    assert(twenty.value() == 20 * one_percent()) by {
        assert(scaled_magnitude(0x41a0_0000) == 0xa0_0000 * pow2(130));
        assert(0xa0_0000 * pow2(130) == 20 * (0x8_0000 * pow2(130)));
    }
    law_cpu_order_is_that_of_patterns(fifty, cpu);
    law_cpu_order_is_that_of_patterns(twenty, cpu);
    law_cpu_order_is_that_of_patterns(cpu, cpu);
}

/// `row` shows `entry` at place `index`.
///
/// The editor has the icon of a server, a language server that of a file and a terminal its own.
/// CPU usage is colored from above fifty and from above twenty percent, memory from above two
/// gibibytes and from above 500 mebibytes.
pub open spec fn row_shows(row: Row, entry: ProcessEntry, index: int) -> bool {
    &&& row.index == index
    &&& row.name@ == entry.name@
    &&& match (row.context, entry.context) {
        (Some(shown), Some(context)) => shown@ == seq!['('] + context@ + seq![')'],
        (None, None) => true,
        _ => false,
    }
    &&& match entry.category {
        ProcessCategory::MainProcess => row.icon == RowIcon::Server && row.icon_color
            == RowColor::Accent,
        ProcessCategory::LanguageServer => row.icon == RowIcon::FileCode && row.icon_color
            == RowColor::Info,
        ProcessCategory::Terminal => row.icon == RowIcon::Terminal && row.icon_color
            == RowColor::Normal,
    }
    &&& match entry.pid {
        Some(pid) => row.pid@ == decimal(pid as nat),
        None => row.pid@ == seq!['—'],
    }
    &&& row.cpu@ == entry.cpu_percent.shown().push('%')
    &&& row.cpu_color == (if 0x4248_0000 < entry.cpu_percent.bits <= 0x7f80_0000 {
        RowColor::Error
    } else if 0x41a0_0000 < entry.cpu_percent.bits <= 0x7f80_0000 {
        RowColor::Warning
    } else {
        RowColor::Muted
    })
    &&& row.memory@ == bytes_text(entry.memory_bytes as nat)
    &&& row.memory_color == (if entry.memory_bytes > 2 * 1024 * 1024 * 1024 {
        RowColor::Error
    } else if entry.memory_bytes > 500 * 1024 * 1024 {
        RowColor::Warning
    } else {
        RowColor::Normal
    })
}

/// A row shows its entry.
pub proof fn law_row_shows_its_entry(row: Row, entry: ProcessEntry, index: int)
    requires
        0 <= index,
        row@ == row_of(entry@, index as nat),
    ensures
        row_shows(row, entry, index),
{
    reveal_strlit("(");
    reveal_strlit(")");
    reveal_strlit("—");
    reveal_strlit("%");
    law_cpu_thresholds(entry.cpu_percent);
    assert(row.cpu_color == cpu_color(entry.cpu_percent));
    assert(row@.cpu == entry.cpu_percent.shown() + "%"@);
    assert(row.cpu@ =~= entry.cpu_percent.shown().push('%'));
    if let Some(context) = entry.context {
        assert(row@.context == Some("("@ + context@ + ")"@));
        assert(row.context->0@ =~= seq!['('] + context@ + seq![')']);
    }
    assert(row.pid@ == pid_text(entry.pid));
    if entry.pid is None {
        assert(row.pid@ =~= seq!['—']);
    }
}

// The list

/// The list without entries is a placeholder. Else it has a row for every entry, in their order,
/// and a heading above every row whose entry is the first or has another category than the one
/// before; and nothing more.
///
/// `places[i]` is where the row of the `i`-th entry stands.
pub proof fn law_list_has_rows_and_headings(items: Seq<ListItem>, entries: Seq<ProcessEntry>)
    requires
        item_views(items) == list_of(entry_views(entries)),
    ensures
        entries.len() == 0 ==> items.len() == 1 && items[0] == ListItem::Placeholder,
        entries.len() > 0 ==> exists|places: Seq<int>|
            {
                &&& #[trigger] places.len() == entries.len()
                &&& places[0] == 1
                &&& items.len() == places.last() + 1
                &&& forall|i: int|
                    0 <= i < entries.len() ==> {
                        &&& 0 < #[trigger] places[i] < items.len()
                        &&& items[places[i]] matches ListItem::Row(row)
                        &&& row_shows(row, entries[i], i)
                        &&& i == 0 || entries[i - 1].category != entries[i].category
                            ==> items[places[i] - 1] == ListItem::Heading(entries[i].category)
                        &&& i > 0 ==> places[i] == places[i - 1] + (if entries[i - 1].category
                            != entries[i].category {
                            2int
                        } else {
                            1int
                        })
                    }
            },
{
    let shown = entry_views(entries);
    let views = item_views(items);
    assert(views.len() == items.len());
    if entries.len() == 0 {
        assert(views[0] == items[0]@);
    } else {
        let places = row_places(shown);
        lemma_row_places(shown);
        assert forall|i: int| 0 <= i < entries.len() implies {
            &&& 0 < #[trigger] places[i] < items.len()
            &&& items[places[i]] matches ListItem::Row(row)
            &&& row_shows(row, entries[i], i)
            &&& i == 0 || entries[i - 1].category != entries[i].category ==> items[places[i] - 1]
                == ListItem::Heading(entries[i].category)
            &&& i > 0 ==> places[i] == places[i - 1] + (if entries[i - 1].category
                != entries[i].category {
                2int
            } else {
                1int
            })
        } by {
            assert(shown[i] == entries[i]@);
            assert(views[places[i]] == items[places[i]]@);
            assert(views[places[i]] == ItemView::Row(row_of(entries[i]@, i as nat)));
            law_row_shows_its_entry(items[places[i]]->Row_0, entries[i], i);
            if i > 0 {
                assert(shown[i - 1] == entries[i - 1]@);
            }
            if starts_group(shown, i) {
                assert(views[places[i] - 1] == items[places[i] - 1]@);
            }
        }
        assert(places.len() == entries.len());
    }
}

/// Where the rows stand in the list of `entries`.
spec fn row_places(entries: Seq<EntryView>) -> Seq<int>
    decreases entries.len(),
{
    if entries.len() == 0 {
        Seq::empty()
    } else {
        row_places(entries.drop_last()).push(grouped_rows(entries).len() - 1)
    }
}

proof fn lemma_row_places(entries: Seq<EntryView>)
    ensures
        ({
            let places = row_places(entries);
            let items = grouped_rows(entries);
            &&& places.len() == entries.len()
            &&& entries.len() == 0 ==> items.len() == 0
            &&& entries.len() > 0 ==> places[0] == 1 && items.len() == places.last() + 1
            &&& forall|i: int|
                0 <= i < entries.len() ==> {
                    &&& 0 < #[trigger] places[i] < items.len()
                    &&& items[places[i]] == ItemView::Row(row_of(entries[i], i as nat))
                    &&& starts_group(entries, i) ==> items[places[i] - 1] == ItemView::Heading(
                        entries[i].category,
                    )
                    &&& i > 0 ==> places[i] == places[i - 1] + (if starts_group(entries, i) {
                        2int
                    } else {
                        1int
                    })
                }
        }),
    decreases entries.len(),
{
    if entries.len() > 0 {
        let fewer = entries.drop_last();
        let last = entries.len() - 1;
        lemma_row_places(fewer);
        let places = row_places(entries);
        let earlier = row_places(fewer);
        let items = grouped_rows(entries);
        let above = grouped_rows(fewer);
        assert forall|i: int| 0 <= i < entries.len() implies {
            &&& 0 < #[trigger] places[i] < items.len()
            &&& items[places[i]] == ItemView::Row(row_of(entries[i], i as nat))
            &&& starts_group(entries, i) ==> items[places[i] - 1] == ItemView::Heading(
                entries[i].category,
            )
            &&& i > 0 ==> places[i] == places[i - 1] + (if starts_group(entries, i) {
                2int
            } else {
                1int
            })
        } by {
            if i < last {
                assert(places[i] == earlier[i]);
                assert(fewer[i] == entries[i]);
                assert(starts_group(fewer, i) == starts_group(entries, i));
                assert(items[places[i]] == above[earlier[i]]);
                assert(items[places[i] - 1] == above[earlier[i] - 1]);
                if i > 0 {
                    assert(places[i - 1] == earlier[i - 1]);
                }
            } else if last > 0 {
                assert(places[last - 1] == earlier[last - 1]);
                assert(earlier.last() == earlier[last - 1]);
            }
        }
        if last > 0 {
            assert(places[0] == earlier[0]);
        }
    }
}

// The report

/// The heading of a category.
pub open spec fn category_name(category: ProcessCategory) -> Seq<char> {
    match category {
        ProcessCategory::LanguageServer => "Language Servers"@,
        ProcessCategory::Terminal => "Terminals"@,
        ProcessCategory::MainProcess => "Zed"@,
    }
}

/// Categories are headed by their names.
pub proof fn law_labels(category: ProcessCategory)
    ensures
        category.spec_label() == category_name(category),
{
}

/// The line of an entry gives its name, its context in parentheses, and behind that the same texts
/// for process identifier, CPU usage and memory size as the entry's row in the list.
pub open spec fn line_with_row(entry: ProcessEntry, row: Row) -> Seq<char> {
    "  "@ + entry.name@ + (match entry.context {
        Some(context) => " ("@ + context@ + ")"@,
        None => Seq::empty(),
    }) + " PID:"@ + row.pid@ + " CPU:"@ + row.cpu@ + " Mem:"@ + row.memory@ + "\n"@
}

/// In the report an entry has the texts of its row, and its memory as a size with a unit.
pub proof fn law_line_shows_the_row(entry: ProcessEntry, row: Row, index: nat)
    requires
        row@ == row_of(entry@, index),
    ensures
        entry_line(entry@) == line_with_row(entry, row),
        row.memory@ == bytes_text(entry.memory_bytes as nat),
        ("Mem:"@ + bytes_text(entry.memory_bytes as nat) + "\n"@).is_suffix_of(entry_line(entry@)),
{
    let front = "  "@ + entry.name@ + (match entry.context {
        Some(context) => " ("@ + context@ + ")"@,
        None => Seq::empty(),
    }) + " PID:"@ + row.pid@ + " CPU:"@;
    let size = bytes_text(entry.memory_bytes as nat);
    let cpu = entry.cpu_percent.shown();
    reveal_strlit("%");
    reveal_strlit(" Mem:");
    reveal_strlit("% Mem:");
    reveal_strlit("Mem:");
    reveal_strlit("\n");
    assert(row.memory@ == size);
    assert(row.cpu@ == cpu + "%"@);
    assert(row.pid@ == pid_text(entry.pid));
    assert(entry_line(entry@) == front + cpu + "% Mem:"@ + size + "\n"@);
    assert(cpu + "% Mem:"@ =~= cpu + "%"@ + " Mem:"@);
    assert(front + cpu + "% Mem:"@ =~= front + (cpu + "% Mem:"@));
    assert(front + (cpu + "%"@ + " Mem:"@) =~= front + row.cpu@ + " Mem:"@);
    let line = entry_line(entry@);
    let end = "Mem:"@ + size + "\n"@;
    assert(line =~= front + cpu + "% "@ + end) by {
        reveal_strlit("% ");
        assert("% Mem:"@ =~= "% "@ + "Mem:"@);
    }
    assert(end =~= line.subrange(line.len() - end.len(), line.len() as int));
}

/// The report gives the totals and then, for every entry in its order, a line with its name, its
/// context in parentheses, its process identifier or a dash, its CPU usage and its memory size. A
/// line whose entry is the first, or has another category than the one before, stands under the
/// name of its category.
pub proof fn law_report_lists_every_entry(
    report: Seq<char>,
    entries: Seq<ProcessEntry>,
    total_cpu: CpuPercent,
    total_memory: u64,
)
    requires
        report == report_head(total_cpu, total_memory as nat) + entry_lines(entry_views(entries)),
    ensures
        exists|pieces: Seq<Seq<char>>|
            {
                &&& report == "Zed Resource Monitor Report\n"@ + "Total: "@ + total_cpu.shown()
                    + "% CPU · "@ + bytes_text(total_memory as nat) + "\n\n"@
                    + #[trigger] pieces.flatten()
                &&& pieces.len() == entries.len()
                &&& forall|i: int|
                    0 <= i < entries.len() ==> #[trigger] pieces[i] == (if i == 0
                        || entries[i - 1].category != entries[i].category {
                        "\n"@ + category_name(entries[i].category) + ":\n"@
                    } else {
                        Seq::empty()
                    }) + ("  "@ + entries[i].name@ + (match entries[i].context {
                        Some(context) => " ("@ + context@ + ")"@,
                        None => Seq::empty(),
                    }) + " PID:"@ + (match entries[i].pid {
                        Some(pid) => decimal(pid as nat),
                        None => "—"@,
                    }) + " CPU:"@ + entries[i].cpu_percent.shown() + "% Mem:"@ + bytes_text(
                        entries[i].memory_bytes as nat,
                    ) + "\n"@)
            },
{
    let views = entry_views(entries);
    let pieces = Seq::new(
        views.len(),
        |i: int|
            (if starts_group(views, i) {
                heading_line(views[i].category)
            } else {
                Seq::empty()
            }) + entry_line(views[i]),
    );
    lemma_lines_are_pieces(views, pieces, views.len());
    assert(views.take(views.len() as int) =~= views);
    assert(pieces.take(views.len() as int) =~= pieces);
    assert forall|i: int| 0 <= i < entries.len() implies #[trigger] pieces[i] == (if i == 0
        || entries[i - 1].category != entries[i].category {
        "\n"@ + category_name(entries[i].category) + ":\n"@
    } else {
        Seq::empty()
    }) + ("  "@ + entries[i].name@ + (match entries[i].context {
        Some(context) => " ("@ + context@ + ")"@,
        None => Seq::empty(),
    }) + " PID:"@ + (match entries[i].pid {
        Some(pid) => decimal(pid as nat),
        None => "—"@,
    }) + " CPU:"@ + entries[i].cpu_percent.shown() + "% Mem:"@ + bytes_text(
        entries[i].memory_bytes as nat,
    ) + "\n"@) by {
        assert(views[i] == entries[i]@);
        if i > 0 {
            assert(views[i - 1] == entries[i - 1]@);
        }
        law_labels(entries[i].category);
    }
    assert(report == "Zed Resource Monitor Report\n"@ + "Total: "@ + total_cpu.shown()
        + "% CPU · "@ + bytes_text(total_memory as nat) + "\n\n"@ + pieces.flatten());
}

proof fn lemma_lines_are_pieces(entries: Seq<EntryView>, pieces: Seq<Seq<char>>, n: nat)
    requires
        n <= entries.len(),
        pieces.len() == entries.len(),
        forall|i: int|
            0 <= i < entries.len() ==> #[trigger] pieces[i] == (if starts_group(entries, i) {
                heading_line(entries[i].category)
            } else {
                Seq::empty()
            }) + entry_line(entries[i]),
    ensures
        entry_lines(entries.take(n as int)) == pieces.take(n as int).flatten(),
    decreases n,
{
    if n == 0 {
        assert(pieces.take(0) =~= Seq::empty());
    } else {
        let last = n - 1;
        let some = entries.take(n as int);
        lemma_lines_are_pieces(entries, pieces, last as nat);
        assert(some.drop_last() =~= entries.take(last));
        assert(pieces.take(n as int) =~= pieces.take(last).push(pieces[last]));
        pieces.take(last).lemma_flatten_push(pieces[last]);
        assert(starts_group(some, last) == starts_group(entries, last));
        assert(entry_lines(some) =~= pieces.take(last).flatten() + pieces[last]);
    }
}

/// The summary counts the processes and gives the totals.
pub proof fn law_summary_text(count: nat, total_cpu: CpuPercent, total_memory: nat)
    ensures
        summary(count, total_cpu, total_memory) == "— "@ + decimal(count) + (if count == 1 {
            " process · "@
        } else {
            " processes · "@
        }) + total_cpu.shown() + "% CPU · "@ + bytes_text(total_memory),
{
    reveal_strlit("");
    reveal_strlit(" process");
    reveal_strlit("es");
    reveal_strlit(" · ");
    reveal_strlit(" process · ");
    reveal_strlit(" processes · ");
    assert(" process"@ + ""@ + " · "@ =~= " process · "@);
    assert(" process"@ + "es"@ + " · "@ =~= " processes · "@);
    assert(summary(count, total_cpu, total_memory) =~= "— "@ + decimal(count) + (if count == 1 {
        " process · "@
    } else {
        " processes · "@
    }) + total_cpu.shown() + "% CPU · "@ + bytes_text(total_memory));
}

} // verus!
