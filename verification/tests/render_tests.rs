use git_stats::chart::{color_for, contributor_json, series_json};
use git_stats::rank::{rank, Metric};
use git_stats::render::{
    decimal, graph_columns, largest, name_column_width, render_row, render_table,
    render_table_line, render_table_rule, render_time_graph,
};
use git_stats::series::DateSeries;
use git_stats::stats::{ContributorStats, StatsTable};

fn series_of(entries: &[(&str, u64)]) -> DateSeries {
    let mut s = DateSeries::new();
    for (k, v) in entries {
        assert!(s.add(k, *v));
    }
    s
}

fn table_of(rows: &[(&str, u64, u64, u64)]) -> StatsTable {
    let mut t = StatsTable::new();
    for (name, c, a, d) in rows {
        assert!(t.record(name, *c, *a, *d));
    }
    t
}

fn strings(items: &[&str]) -> Vec<String> {
    items.iter().map(|s| s.to_string()).collect()
}

#[test]
fn numerals() {
    assert_eq!(decimal(0), "0");
    assert_eq!(decimal(7), "7");
    assert_eq!(decimal(10), "10");
    assert_eq!(decimal(1234567890), "1234567890");
    assert_eq!(decimal(u64::MAX), "18446744073709551615");
}

#[test]
fn graph_without_data() {
    assert_eq!(
        render_time_graph("Team (all contributors)", &DateSeries::new()),
        strings(&["Team (all contributors): No data", ""])
    );
}

#[test]
fn graph_of_two_dates() {
    let data = series_of(&[("2025-01-01", 2), ("2025-01-02", 4)]);
    assert_eq!(
        render_time_graph("Team", &data),
        strings(&[
            "Team",
            "\u{2500}\u{2500}\u{2500}\u{2500}",
            " \u{2588} 4",
            " \u{2588}",
            " \u{2588}",
            " \u{2588}",
            "\u{2588}\u{2588}",
            "\u{2588}\u{2588}",
            "\u{2588}\u{2588}",
            "\u{2588}\u{2588} 0",
            "2025-01-012025-01-02",
            "",
        ])
    );
}

#[test]
fn graph_rule_is_as_long_as_the_title_in_bytes() {
    let data = series_of(&[("2025-01-01", 1)]);
    let lines = render_time_graph("Zo\u{e9}", &data);
    assert_eq!(lines[0], "Zo\u{e9}");
    assert_eq!(lines[1], "\u{2500}\u{2500}\u{2500}\u{2500}");
    assert_eq!(lines[2], "\u{2588} 1");
    assert_eq!(lines[9], "\u{2588} 0");
    assert_eq!(lines[10], "2025-01-012025-01-01");
}

#[test]
fn graph_of_zeros_is_blank() {
    let data = series_of(&[("2025-01-01", 0), ("2025-01-02", 0)]);
    let lines = render_time_graph("x", &data);
    assert_eq!(lines[2], "   0");
    assert_eq!(lines[5], "  ");
    assert_eq!(lines[9], "   0");
}

#[test]
fn graph_columns_share_entries_beyond_sixty() {
    let mut data = DateSeries::new();
    for i in 0..61u64 {
        assert!(data.add(&format!("k{:03}", i), i + 1));
    }
    let columns = graph_columns(&data);
    assert_eq!(columns.len(), 31);
    assert_eq!(columns[0], 1 + 2);
    assert_eq!(columns[1], 3 + 4);
    assert_eq!(columns[30], 61);
    assert_eq!(largest(&columns), 59 + 60);
    assert_eq!(columns.iter().sum::<u64>(), data.total());

    let mut wide = DateSeries::new();
    for i in 0..150u64 {
        assert!(wide.add(&format!("k{:03}", i), 1));
    }
    assert_eq!(graph_columns(&wide), vec![3u64; 50]);

    let mut exact = DateSeries::new();
    for i in 0..60u64 {
        assert!(exact.add(&format!("k{:03}", i), i));
    }
    assert_eq!(graph_columns(&exact), (0..60u64).collect::<Vec<u64>>());
    assert_eq!(largest(&Vec::new()), 0);
}

#[test]
fn date_axis_is_padded_to_the_width_of_the_graph() {
    let mut data = DateSeries::new();
    for day in 1..=20u64 {
        assert!(data.add(&format!("2025-01-{:02}", day), day));
    }
    let lines = render_time_graph("t", &data);
    assert_eq!(lines[2].chars().count(), 20 + 3);
    assert_eq!(lines[10], "2025-01-012025-01-20");
    let short = series_of(&[("a", 1), ("b", 1), ("c", 1), ("d", 1), ("e", 1)]);
    let lines = render_time_graph("t", &short);
    assert_eq!(lines[10], "a   e");
}

#[test]
fn rows_are_filled_above_the_threshold() {
    let values = vec![0u64, 1, 4, 8];
    assert_eq!(render_row(&values, 7), "   \u{2588} 8");
    assert_eq!(render_row(&values, 4), "   \u{2588}");
    assert_eq!(render_row(&values, 3), "  \u{2588}\u{2588}");
    assert_eq!(render_row(&values, 1), "  \u{2588}\u{2588}");
    assert_eq!(render_row(&values, 0), " \u{2588}\u{2588}\u{2588} 0");
    let huge = vec![u64::MAX, u64::MAX - 1, u64::MAX / 8 * 7];
    assert_eq!(render_row(&huge, 7), "\u{2588}\u{2588}  18446744073709551615");
}

#[test]
fn table_of_one_contributor() {
    let report = rank(&table_of(&[("Alice", 1, 10, 2)]), Metric::Commits);
    assert_eq!(name_column_width(&report), 12);
    assert_eq!(
        render_table(&report, &strings(&["100.0%"])),
        strings(&[
            "| Contributeur |  Commits | Lignes ajoutees | Lignes supprimees |      % |",
            "|--------------|----------|-----------------|-------------------|--------|",
            "| Alice        |        1 |              10 |                 2 | 100.0% |",
            "|--------------|----------|-----------------|-------------------|--------|",
            "| TOTAL        |        1 |              10 |                 2 |   100% |",
        ])
    );
}

#[test]
fn table_without_contributors() {
    let report = rank(&StatsTable::new(), Metric::Commits);
    assert_eq!(
        render_table(&report, &[]),
        strings(&[
            "| Contributeur |  Commits | Lignes ajoutees | Lignes supprimees |      % |",
            "|--------------|----------|-----------------|-------------------|--------|",
            "|--------------|----------|-----------------|-------------------|--------|",
            "| TOTAL        |        0 |               0 |                 0 |   100% |",
        ])
    );
}

#[test]
fn table_grows_with_the_longest_name() {
    let report = rank(
        &table_of(&[("A long contributor name", 2, 1234567, 89), ("bob", 30, 0, 0)]),
        Metric::Commits,
    );
    assert_eq!(name_column_width(&report), 23);
    assert_eq!(
        render_table(&report, &strings(&["93.8%", "6.2%"])),
        strings(&[
            "| Contributeur            |  Commits | Lignes ajoutees | Lignes supprimees |      % |",
            "|-------------------------|----------|-----------------|-------------------|--------|",
            "| bob                     |       30 |               0 |                 0 |  93.8% |",
            "| A long contributor name |        2 |         1234567 |                89 |   6.2% |",
            "|-------------------------|----------|-----------------|-------------------|--------|",
            "| TOTAL                   |       32 |         1234567 |                89 |   100% |",
        ])
    );
    assert_eq!(render_table(&report, &[])[2], format!("| bob{} |       30 |               0 |                 0 |        |", " ".repeat(20)));
}

#[test]
fn table_cells_wider_than_their_column_are_kept_whole() {
    assert_eq!(
        render_table_line(2, "abc", "123456789", "", "x", "1234567"),
        "| abc | 123456789 |                 |                 x | 1234567 |"
    );
    assert_eq!(render_table_rule(0), "|--|----------|-----------------|-------------------|--------|");
}

#[test]
fn colours_go_round_the_palette() {
    let palette = ["#58a6ff", "#3fb950", "#f0883e", "#a371f7", "#f85149", "#8b949e"];
    for i in 0..20usize {
        assert_eq!(color_for(i), palette[i % 6]);
    }
}

#[test]
fn series_as_json() {
    assert_eq!(series_json(&DateSeries::new()), "");
    assert_eq!(
        series_json(&series_of(&[("2025-01-01", 2)])),
        "{\"date\":\"2025-01-01\",\"count\":2}"
    );
    assert_eq!(
        series_json(&series_of(&[("2025-01-02", 30), ("2025-01-01", 2)])),
        "{\"date\":\"2025-01-01\",\"count\":2},{\"date\":\"2025-01-02\",\"count\":30}"
    );
}

#[test]
fn contributor_as_json() {
    let stats = ContributorStats { commits: 5, lines_added: 13, lines_deleted: 21 };
    let commits = series_of(&[("2025-01-01", 2), ("2025-01-02", 3)]);
    let lines = series_of(&[("2025-01-01", 34)]);
    let indent = " ".repeat(20);
    let expected = format!(
        "{{\n{i}\"name\": \"Bob K.\",\n{i}\"commits\": 5,\n{i}\"added\": 13,\n{i}\"deleted\": 21,\n{i}\"color\": \"#3fb950\",\n{i}\"weeklyCommits\": [{{\"date\":\"2025-01-01\",\"count\":2}},{{\"date\":\"2025-01-02\",\"count\":3}}],\n{i}\"weeklyLines\": [{{\"date\":\"2025-01-01\",\"count\":34}}]\n{c}}}",
        i = indent,
        c = " ".repeat(16)
    );
    assert_eq!(contributor_json("Bob K.", stats, color_for(1), &commits, &lines), expected);
}
