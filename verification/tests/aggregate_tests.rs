use git_stats::aggregate::{aggregate, commit_series, line_series, RawRecord, RecordKind};
use git_stats::alias::{build_author_mapping, AliasMap};
use git_stats::rank::{rank, Metric};
use git_stats::series::{merge_all, DateSeries};
use git_stats::stats::{ContributorStats, StatsTable};

fn commit(author: &str, date: &str) -> RawRecord {
    RawRecord { author: author.to_string(), date: date.to_string(), kind: RecordKind::Commit }
}

fn lines(author: &str, date: &str, added: u64, deleted: u64) -> RawRecord {
    RawRecord {
        author: author.to_string(),
        date: date.to_string(),
        kind: RecordKind::Lines { added, deleted },
    }
}

fn aliases(entries: &[&str]) -> AliasMap {
    let args: Vec<String> = entries.iter().map(|s| s.to_string()).collect();
    build_author_mapping(&args)
}

fn rows_of(t: &StatsTable) -> Vec<(String, u64, u64, u64)> {
    (0..t.len())
        .map(|i| {
            let s = t.stats_at(i);
            (t.name_at(i).clone(), s.commits, s.lines_added, s.lines_deleted)
        })
        .collect()
}

fn entries_of(s: &DateSeries) -> Vec<(String, u64)> {
    (0..s.len()).map(|i| (s.key_at(i).clone(), s.value_at(i))).collect()
}

fn bob_records() -> Vec<RawRecord> {
    vec![
        commit("bob", "2025-01-01"),
        commit("Bob K.", "2025-01-01"),
        lines("bob", "2025-01-01", 3, 1),
        commit("Bob K.", "2025-01-02"),
        commit("bob", "2025-01-03"),
        lines("Bob K.", "2025-01-02", 10, 20),
        commit("Bob K.", "2025-01-03"),
        commit("Alice", "2025-01-02"),
        lines("Alice", "2025-01-02", 7, 0),
    ]
}

#[test]
fn one_commit_with_its_lines() {
    let records = vec![commit("Alice", "2025-01-01"), lines("Alice", "2025-01-01", 10, 2)];
    let table = aggregate(&records, &AliasMap::new()).expect("fits");
    assert_eq!(rows_of(&table), vec![("Alice".to_string(), 1, 10, 2)]);
    assert_eq!(
        table.get("Alice"),
        Some(ContributorStats { commits: 1, lines_added: 10, lines_deleted: 2 })
    );
    let report = rank(&table, Metric::Commits);
    assert_eq!(report.len(), 1);
    assert_eq!(report.row(0).name, "Alice");
    let share = report.share(0);
    assert_eq!((share.part, share.whole), (1, 1));
    assert_eq!(share.part as f64 / share.whole as f64 * 100.0, 100.0);
}

#[test]
fn aliases_merge_into_the_canonical_identity() {
    let mut records = Vec::new();
    for _ in 0..2 {
        records.push(commit("bob", "2025-01-01"));
    }
    for _ in 0..3 {
        records.push(commit("Bob K.", "2025-01-02"));
    }
    let table = aggregate(&records, &aliases(&["bob=Bob K."])).expect("fits");
    assert_eq!(rows_of(&table), vec![("Bob K.".to_string(), 5, 0, 0)]);
    assert_eq!(table.get("bob"), None);
}

#[test]
fn without_aliases_identities_stay_apart() {
    let table = aggregate(&bob_records(), &AliasMap::new()).expect("fits");
    assert_eq!(
        rows_of(&table),
        vec![
            ("Alice".to_string(), 1, 7, 0),
            ("Bob K.".to_string(), 3, 10, 20),
            ("bob".to_string(), 2, 3, 1),
        ]
    );
}

#[test]
fn totals_do_not_depend_on_the_order_of_records() {
    let m = aliases(&["bob=Bob K."]);
    let forward = bob_records();
    let mut backward = bob_records();
    backward.reverse();
    let mut rotated = bob_records();
    rotated.rotate_left(4);
    let expected = vec![("Alice".to_string(), 1, 7, 0), ("Bob K.".to_string(), 5, 13, 21)];
    assert_eq!(rows_of(&aggregate(&forward, &m).expect("fits")), expected);
    assert_eq!(rows_of(&aggregate(&backward, &m).expect("fits")), expected);
    assert_eq!(rows_of(&aggregate(&rotated, &m).expect("fits")), expected);
}

#[test]
fn merging_by_alias_is_renaming() {
    let merged = aggregate(&bob_records(), &aliases(&["bob=Bob K."])).expect("fits");
    let renamed: Vec<RawRecord> = bob_records()
        .into_iter()
        .map(|r| {
            if r.author == "bob" {
                RawRecord { author: "Bob K.".to_string(), date: r.date, kind: r.kind }
            } else {
                r
            }
        })
        .collect();
    let direct = aggregate(&renamed, &AliasMap::new()).expect("fits");
    assert_eq!(rows_of(&merged), rows_of(&direct));
}

#[test]
fn no_records_no_rows() {
    let table = aggregate(&[], &aliases(&["bob=Bob K."])).expect("fits");
    assert_eq!(table.len(), 0);
    let t = table.totals();
    assert_eq!((t.commits, t.lines_added, t.lines_deleted), (0, 0, 0));
}

#[test]
fn lines_beyond_the_machine_are_refused() {
    let records = vec![lines("a", "2025-01-01", u64::MAX, 0), lines("b", "2025-01-01", 0, 1)];
    assert!(aggregate(&records, &AliasMap::new()).is_none());
    let records = vec![lines("a", "2025-01-01", u64::MAX, 0), commit("b", "2025-01-01")];
    assert!(aggregate(&records, &AliasMap::new()).is_some());
}

#[test]
fn record_adds_to_the_row_of_the_name() {
    let mut table = StatsTable::new();
    assert!(table.record("bob", 2, 10, 1));
    assert!(table.record("alice", 1, 0, 0));
    assert!(table.record("bob", 3, 5, 4));
    assert_eq!(
        rows_of(&table),
        vec![("alice".to_string(), 1, 0, 0), ("bob".to_string(), 5, 15, 5)]
    );
    let t = table.totals();
    assert_eq!((t.commits, t.lines_added, t.lines_deleted), (6, 15, 5));
    assert!(!table.record("carol", u64::MAX, 0, 0));
    assert!(!table.record("carol", 0, u64::MAX - 19, 0));
    assert!(!table.record("bob", 0, 0, u64::MAX - 19));
    assert_eq!(table.len(), 2);
    assert!(table.record("carol", 0, u64::MAX - 20, 0));
    assert_eq!(table.get("carol").map(|s| s.lines_added), Some(u64::MAX - 20));
}

#[test]
fn commit_series_per_contributor_and_team() {
    let m = aliases(&["bob=Bob K."]);
    let records = bob_records();
    let bob = commit_series(&records, &m, Some("Bob K."));
    assert_eq!(
        entries_of(&bob),
        vec![
            ("2025-01-01".to_string(), 2),
            ("2025-01-02".to_string(), 1),
            ("2025-01-03".to_string(), 2),
        ]
    );
    let team = commit_series(&records, &m, None);
    assert_eq!(
        entries_of(&team),
        vec![
            ("2025-01-01".to_string(), 2),
            ("2025-01-02".to_string(), 2),
            ("2025-01-03".to_string(), 2),
        ]
    );
    assert!(commit_series(&records, &m, Some("bob")).is_empty());
    assert!(commit_series(&[], &m, None).is_empty());
}

#[test]
fn line_series_per_contributor_and_team() {
    let m = aliases(&["bob=Bob K."]);
    let records = bob_records();
    let bob = line_series(&records, &m, Some("Bob K.")).expect("fits");
    assert_eq!(
        entries_of(&bob),
        vec![("2025-01-01".to_string(), 4), ("2025-01-02".to_string(), 30)]
    );
    let team = line_series(&records, &m, None).expect("fits");
    assert_eq!(
        entries_of(&team),
        vec![("2025-01-01".to_string(), 4), ("2025-01-02".to_string(), 37)]
    );
    let huge = vec![lines("a", "2025-01-01", u64::MAX, 1)];
    assert!(line_series(&huge, &m, None).is_none());
    assert!(line_series(&huge, &m, Some("b")).is_some());
    let zero = vec![lines("a", "2025-01-01", 0, 0)];
    assert_eq!(
        entries_of(&line_series(&zero, &m, None).expect("fits")),
        vec![("2025-01-01".to_string(), 0)]
    );
}

#[test]
fn team_series_is_the_sum_of_contributor_series() {
    let m = aliases(&["bob=Bob K."]);
    let records = bob_records();
    let table = aggregate(&records, &m).expect("fits");
    let mut commit_parts = Vec::new();
    let mut line_parts = Vec::new();
    for i in 0..table.len() {
        commit_parts.push(commit_series(&records, &m, Some(table.name_at(i))));
        line_parts.push(line_series(&records, &m, Some(table.name_at(i))).expect("fits"));
    }
    assert_eq!(
        entries_of(&merge_all(&commit_parts).expect("fits")),
        entries_of(&commit_series(&records, &m, None))
    );
    assert_eq!(
        entries_of(&merge_all(&line_parts).expect("fits")),
        entries_of(&line_series(&records, &m, None).expect("fits"))
    );
}
