use git_stats::aggregate::{aggregate, commit_series, line_series, RawRecord};
use git_stats::alias::{build_author_mapping, AliasMap};
use git_stats::bucket::{bucket, Period};
use git_stats::normalize::{commit_records, numstat_records};
use git_stats::rank::{rank, Metric};
use git_stats::render::{render_table, render_time_graph};

fn percent_cells(report: &git_stats::rank::RankedReport) -> Vec<String> {
    (0..report.len())
        .map(|i| {
            let share = report.share(i);
            let pct = if share.whole > 0 {
                share.part as f64 / share.whole as f64 * 100.0
            } else {
                0.0
            };
            format!("{:.1}%", pct)
        })
        .collect()
}

#[test]
fn empty_input_end_to_end() {
    let records: Vec<RawRecord> = Vec::new();
    let aliases = AliasMap::new();
    let table = aggregate(&records, &aliases).expect("fits");
    let report = rank(&table, Metric::Commits);
    assert!(report.is_empty());
    let totals = report.totals();
    assert_eq!((totals.commits, totals.lines_added, totals.lines_deleted), (0, 0, 0));
    let lines = render_table(&report, &percent_cells(&report));
    assert_eq!(lines.len(), 4);
    assert_eq!(
        lines[3],
        "| TOTAL        |        0 |               0 |                 0 |   100% |"
    );
    let team = commit_series(&records, &aliases, None);
    assert_eq!(
        render_time_graph("Team (all contributors)", &team),
        vec!["Team (all contributors): No data".to_string(), String::new()]
    );
    let alice = commit_series(&records, &aliases, Some("Alice"));
    assert_eq!(render_time_graph("Alice", &alice), vec!["Alice: No data".to_string(), String::new()]);
    let changed = line_series(&records, &aliases, None).expect("fits");
    assert!(bucket(&changed, Period::Week).is_empty());
}

#[test]
fn history_text_to_table() {
    let aliases = build_author_mapping(&["bob=Bob K.".to_string(), "broken entry".to_string()]);
    let mut records = commit_records("Alice", "2025-01-01\n");
    records.extend(numstat_records("Alice", "2025-01-01\n\n10\t2\tsrc/lib.rs\n"));
    records.extend(commit_records("bob", "2025-01-05\n2025-01-01\n"));
    records.extend(commit_records("Bob K.", "2025-01-08\n2025-01-08\n2025-01-08\n"));
    records.extend(numstat_records("bob", "2025-01-05\n-\t-\tlogo.png\n1\t1\tREADME\n"));
    let table = aggregate(&records, &aliases).expect("fits");
    let report = rank(&table, Metric::Commits);
    assert_eq!(
        render_table(&report, &percent_cells(&report)),
        vec![
            "| Contributeur |  Commits | Lignes ajoutees | Lignes supprimees |      % |",
            "|--------------|----------|-----------------|-------------------|--------|",
            "| Bob K.       |        5 |               1 |                 1 |  83.3% |",
            "| Alice        |        1 |              10 |                 2 |  16.7% |",
            "|--------------|----------|-----------------|-------------------|--------|",
            "| TOTAL        |        6 |              11 |                 3 |   100% |",
        ]
    );
    let by_lines = rank(&table, Metric::Lines);
    assert_eq!(by_lines.row(0).name, "Alice");
    assert_eq!(percent_cells(&by_lines), vec!["85.7%", "14.3%"]);

    let team = commit_series(&records, &aliases, None);
    let weekly = bucket(&team, Period::Week);
    assert_eq!(weekly.len(), 2);
    assert_eq!((weekly.value_at(0), weekly.value_at(1)), (3, 3));
    assert_eq!(weekly.total(), team.total());
    let bob = commit_series(&records, &aliases, Some("Bob K."));
    let aligned = bucket(&bob, Period::Week).fill(&weekly);
    assert_eq!(aligned.len(), weekly.len());
    assert_eq!((aligned.value_at(0), aligned.value_at(1)), (2, 3));
}
