use git_stats::aggregate::{aggregate, commit_series, line_series, RawRecord, RecordKind};
use git_stats::alias::AliasMap;
use git_stats::lines::{split_lines, trim};
use git_stats::normalize::{
    commit_records, commits_by_date, count_commits, lines_by_date, numstat_records, parse_authors,
    parse_branch, read_line, sum_line_stats, LineShape,
};
use git_stats::series::DateSeries;

fn entries_of(s: &DateSeries) -> Vec<(String, u64)> {
    (0..s.len()).map(|i| (s.key_at(i).clone(), s.value_at(i))).collect()
}

fn pairs(entries: &[(&str, u64)]) -> Vec<(String, u64)> {
    entries.iter().map(|(k, v)| (k.to_string(), *v)).collect()
}

fn lines_of(text: &str) -> Vec<String> {
    split_lines(text).iter().map(|l| l.iter().collect()).collect()
}

fn summary(records: &[RawRecord]) -> Vec<(String, String, Option<(u64, u64)>)> {
    records
        .iter()
        .map(|r| {
            let kind = match r.kind {
                RecordKind::Commit => None,
                RecordKind::Lines { added, deleted } => Some((added, deleted)),
            };
            (r.author.clone(), r.date.clone(), kind)
        })
        .collect()
}

#[test]
fn lines_are_split_as_the_standard_library_splits_them() {
    for text in [
        "",
        "\n",
        "a",
        "a\n",
        "a\nb",
        "a\n\nb\n",
        "a\r\nb\r\n",
        "a\rb\n",
        "a\r",
        "\r\n",
        "\r",
        "a\r\r\nb",
        "\n\n",
        "last line without end\r\nx\r",
    ] {
        let expected: Vec<String> = text.lines().map(|l| l.to_string()).collect();
        assert_eq!(lines_of(text), expected);
    }
}

#[test]
fn trimming_removes_white_space_at_both_ends() {
    for text in ["", " ", "a", "  a b \t", "\u{a0}x\u{3000}", "\t\n x", "x \r", "\u{200b}x"] {
        let chars: Vec<char> = text.chars().collect();
        let got: String = trim(&chars).iter().collect();
        assert_eq!(got, text.trim());
    }
}

#[test]
fn branch_name_is_trimmed() {
    assert_eq!(parse_branch("main\n"), "main");
    assert_eq!(parse_branch("  feature/x \r\n"), "feature/x");
    assert_eq!(parse_branch(""), "");
}

#[test]
fn authors_are_sorted_and_unique() {
    let text = "Zed\nalice\nBob K.\n\nalice\nZed\n";
    assert_eq!(parse_authors(text), vec!["Bob K.", "Zed", "alice"]);
    assert_eq!(parse_authors(""), Vec::<String>::new());
    assert_eq!(parse_authors("\n\n"), Vec::<String>::new());
    assert_eq!(parse_authors(" a\na"), vec![" a", "a"]);
}

#[test]
fn commits_are_counted_by_line() {
    assert_eq!(count_commits(""), 0);
    assert_eq!(count_commits("\n\n"), 0);
    assert_eq!(count_commits("abc123 first\ndef456 second\n"), 2);
    assert_eq!(count_commits("abc123 first\n\ndef456 second"), 2);
    assert_eq!(count_commits(" \n"), 1);
}

#[test]
fn line_statistics_are_summed_by_column() {
    assert_eq!(sum_line_stats(""), Some((0, 0)));
    assert_eq!(sum_line_stats("10\t2\tsrc/a.rs\n3\t4\tsrc/b.rs\n"), Some((13, 6)));
    assert_eq!(sum_line_stats("\n10\t2\tsrc/a.rs\n\n"), Some((10, 2)));
    assert_eq!(sum_line_stats("  7   8  \n"), Some((7, 8)));
}

#[test]
fn a_line_counts_only_where_both_fields_are_numbers() {
    assert_eq!(sum_line_stats("-\t-\timage.png\n"), Some((0, 0)));
    assert_eq!(sum_line_stats("-\t5\tx\n6\t-\ty\n"), Some((0, 0)));
    assert_eq!(sum_line_stats("-\t5\tx\n6\t7\ty\n"), Some((6, 7)));
    assert_eq!(sum_line_stats("12\n"), Some((0, 0)));
    assert_eq!(sum_line_stats("+4\t+5\tx\n"), Some((4, 5)));
    assert_eq!(sum_line_stats("-4\t5\tx\n"), Some((0, 0)));
    assert_eq!(sum_line_stats("1.5\t0x10\tx\n"), Some((0, 0)));
    assert_eq!(sum_line_stats("007\t0\tx\n"), Some((7, 0)));
    assert_eq!(sum_line_stats("+\t1\tx\n"), Some((0, 0)));
    assert_eq!(sum_line_stats("2025-01-01\n3\t4\tx\n2025-01-02 5\n"), Some((3, 4)));
}

#[test]
fn numbers_beyond_the_machine() {
    assert_eq!(sum_line_stats("18446744073709551615\t0\tx\n"), Some((u64::MAX, 0)));
    assert_eq!(sum_line_stats("18446744073709551616\t3\tx\n"), Some((0, 0)));
    assert_eq!(sum_line_stats("18446744073709551616\t3\tx\n1\t2\ty\n"), Some((1, 2)));
    assert_eq!(sum_line_stats("18446744073709551615\t0\tx\n1\t0\ty\n"), None);
    assert_eq!(sum_line_stats("0\t18446744073709551615\tx\n0\t1\ty\n"), None);
}

#[test]
fn commit_dates_are_counted() {
    let s = commits_by_date("2025-01-02\n2025-01-01\n2025-01-02\n\n2025-01-02\n");
    assert_eq!(entries_of(&s), pairs(&[("2025-01-01", 1), ("2025-01-02", 3)]));
    assert!(commits_by_date("").is_empty());
    let s = commits_by_date("not a date\n");
    assert_eq!(entries_of(&s), pairs(&[("not a date", 1)]));
}

#[test]
fn dated_line_statistics() {
    let text = "2025-01-02\n\n10\t2\tsrc/a.rs\n3\t4\tsrc/b.rs\n2025-01-01\n\n1\t1\tc\n2025-01-02\n5\t0\td\n";
    let s = lines_by_date(text).expect("fits");
    assert_eq!(entries_of(&s), pairs(&[("2025-01-01", 2), ("2025-01-02", 24)]));
}

#[test]
fn change_before_any_date_is_dropped() {
    let s = lines_by_date("10\t2\ta\n2025-01-01\n1\t1\tb\n").expect("fits");
    assert_eq!(entries_of(&s), pairs(&[("2025-01-01", 2)]));
    assert!(lines_by_date("10\t2\ta\n").expect("fits").is_empty());
    assert!(lines_by_date("").expect("fits").is_empty());
}

#[test]
fn malformed_lines_are_passed_over() {
    let text = "2025-01-01\n-\t-\timage.png\n5\t-\tx\n-\t5\ty\nonly\n7\t8\tz\n";
    let s = lines_by_date(text).expect("fits");
    assert_eq!(entries_of(&s), pairs(&[("2025-01-01", 15)]));
    let s = lines_by_date("2025-01-01\n-\t-\timage.png\n").expect("fits");
    assert!(s.is_empty());
    let s = lines_by_date("2025-01-01\n0\t0\tempty\n").expect("fits");
    assert_eq!(entries_of(&s), pairs(&[("2025-01-01", 0)]));
}

#[test]
fn date_markers_are_recognised_by_shape_alone() {
    let text = "abcd-ef-gh\n1\t2\tx\n  2025-01-01  \n3\t4\ty\n2025-1-1\n5\t6\tz\n2025/01/01\n";
    let s = lines_by_date(text).expect("fits");
    assert_eq!(entries_of(&s), pairs(&[("2025-01-01", 18), ("abcd-ef-gh", 3)]));
    assert!(matches!(read_line(&chars("2025-01-01")), LineShape::Marker(d) if d == "2025-01-01"));
    assert!(matches!(read_line(&chars("1234-67-90")), LineShape::Marker(_)));
    assert!(matches!(read_line(&chars("1234567890")), LineShape::Other));
    assert!(matches!(read_line(&chars("2025-01-011")), LineShape::Other));
    assert!(matches!(read_line(&chars("10 20 file")), LineShape::Change(10, 20)));
    assert!(matches!(read_line(&chars("")), LineShape::Other));
}

#[test]
fn dated_lines_beyond_the_machine_are_refused() {
    assert!(lines_by_date("2025-01-01\n18446744073709551615\t1\tx\n").is_none());
    assert!(lines_by_date("2025-01-01\n18446744073709551615\t0\tx\n2025-01-02\n1\t0\ty\n").is_none());
    let s = lines_by_date("2025-01-01\n18446744073709551615\t0\tx\n").expect("fits");
    assert_eq!(entries_of(&s), pairs(&[("2025-01-01", u64::MAX)]));
    assert!(lines_by_date("18446744073709551615\t1\tx\n").is_some());
}

#[test]
fn records_of_a_commit_list() {
    let records = commit_records("Alice", "2025-01-02\n\n2025-01-01\n");
    assert_eq!(
        summary(&records),
        vec![
            ("Alice".to_string(), "2025-01-02".to_string(), None),
            ("Alice".to_string(), "2025-01-01".to_string(), None),
        ]
    );
    assert!(commit_records("Alice", "").is_empty());
}

#[test]
fn records_of_dated_line_statistics() {
    let text = "9\t9\tearly\n2025-01-01\n\n10\t2\ta\n-\t-\tb\n2025-01-02\n0\t7\tc\n";
    let records = numstat_records("Alice", text);
    assert_eq!(
        summary(&records),
        vec![
            ("Alice".to_string(), "2025-01-01".to_string(), Some((10, 2))),
            ("Alice".to_string(), "2025-01-02".to_string(), Some((0, 7))),
        ]
    );
}

#[test]
fn records_read_from_text_aggregate_to_totals() {
    let mut records = commit_records("Alice", "2025-01-01\n");
    records.extend(numstat_records("Alice", "2025-01-01\n10\t2\tsrc/lib.rs\n"));
    let table = aggregate(&records, &AliasMap::new()).expect("fits");
    assert_eq!(table.len(), 1);
    assert_eq!(table.name_at(0), "Alice");
    let stats = table.stats_at(0);
    assert_eq!((stats.commits, stats.lines_added, stats.lines_deleted), (1, 10, 2));
}

fn chars(s: &str) -> Vec<char> {
    s.chars().collect()
}

#[test]
fn white_space_is_what_the_standard_library_calls_white_space() {
    for code in 0..=0x10FFFFu32 {
        if let Some(c) = char::from_u32(code) {
            assert_eq!(git_stats::lines::is_space_char(c), c.is_whitespace(), "U+{:04X}", code);
        }
    }
}

#[test]
fn fields_are_what_white_space_separates() {
    for text in [
        "",
        " ",
        "a",
        " a ",
        "a b",
        "  a\t\tb  c ",
        "10\t2\tsrc/a name.rs",
        "\u{a0}x\u{3000}y",
        "one",
        "\t-\t-\t",
    ] {
        let line: Vec<char> = text.chars().collect();
        let expected: Vec<&str> = text.split_whitespace().collect();
        match git_stats::lines::first_two_fields(&line) {
            Some((a0, b0, a1, b1)) => {
                assert!(expected.len() >= 2);
                assert_eq!(line[a0..b0].iter().collect::<String>(), expected[0]);
                assert_eq!(line[a1..b1].iter().collect::<String>(), expected[1]);
            }
            None => assert!(expected.len() < 2),
        }
    }
}

#[test]
fn numbers_are_read_as_the_standard_library_reads_them() {
    for text in [
        "",
        "0",
        "7",
        "+7",
        "-7",
        "++7",
        "+",
        "-",
        "007",
        "12a",
        "a12",
        " 12",
        "12 ",
        "1_000",
        "1.5",
        "18446744073709551615",
        "18446744073709551616",
        "+18446744073709551615",
        "99999999999999999999999999",
        "000000000000000000000000000001",
        "\u{663}",
    ] {
        let field: Vec<char> = text.chars().collect();
        assert_eq!(
            git_stats::lines::parse_field(&field, 0, field.len()),
            text.parse::<u64>().ok(),
            "{:?}",
            text
        );
    }
    let line: Vec<char> = "ab123cd".chars().collect();
    assert_eq!(git_stats::lines::parse_field(&line, 2, 5), Some(123));
    assert_eq!(git_stats::lines::parse_field(&line, 2, 2), None);
}

#[test]
fn records_and_direct_readers_agree() {
    let commits = "2025-01-02\n2025-01-01\n\n2025-01-02\n";
    let changes = "1\t1\tearly\n2025-01-02\n10\t2\ta\n-\t-\tb\n2025-01-01\n0\t7\tc\n2025-01-02\n3\t3\td\n";
    let none = AliasMap::new();
    let commit_list = commit_records("Alice", commits);
    let change_list = numstat_records("Alice", changes);
    assert_eq!(commit_list.len() as u64, count_commits(commits));
    assert_eq!(
        entries_of(&commit_series(&commit_list, &none, None)),
        entries_of(&commits_by_date(commits))
    );
    assert_eq!(
        entries_of(&line_series(&change_list, &none, None).expect("fits")),
        entries_of(&lines_by_date(changes).expect("fits"))
    );
    let table = aggregate(&commit_list, &none).expect("fits");
    assert_eq!(table.get("Alice").map(|s| s.commits), Some(count_commits(commits)));
}
