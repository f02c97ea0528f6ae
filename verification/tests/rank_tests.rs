use git_stats::rank::{rank, value_of, Metric, RankedReport};
use git_stats::stats::{ContributorStats, StatsTable};

fn table_of(rows: &[(&str, u64, u64, u64)]) -> StatsTable {
    let mut t = StatsTable::new();
    for (name, c, a, d) in rows {
        assert!(t.record(name, *c, *a, *d));
    }
    t
}

fn names_of(r: &RankedReport) -> Vec<String> {
    (0..r.len()).map(|i| r.row(i).name.clone()).collect()
}

fn percentages(r: &RankedReport) -> Vec<f64> {
    (0..r.len())
        .map(|i| {
            let s = r.share(i);
            if s.whole > 0 {
                s.part as f64 / s.whole as f64 * 100.0
            } else {
                0.0
            }
        })
        .collect()
}

#[test]
fn ranked_by_commits_largest_first() {
    let t = table_of(&[("alice", 3, 100, 0), ("bob", 10, 1, 1), ("carol", 5, 0, 50)]);
    let r = rank(&t, Metric::Commits);
    assert_eq!(r.metric(), Metric::Commits);
    assert_eq!(names_of(&r), vec!["bob", "carol", "alice"]);
    assert_eq!(r.whole(), 18);
    assert_eq!(r.share(0).part, 10);
    assert_eq!(r.share(1).part, 5);
    assert_eq!(r.share(2).part, 3);
}

#[test]
fn ranked_by_lines_changed() {
    let t = table_of(&[("alice", 3, 100, 0), ("bob", 10, 1, 1), ("carol", 5, 0, 50)]);
    let r = rank(&t, Metric::Lines);
    assert_eq!(r.metric(), Metric::Lines);
    assert_eq!(names_of(&r), vec!["alice", "carol", "bob"]);
    assert_eq!(r.whole(), 152);
    assert_eq!(r.share(0).part, 100);
    assert_eq!(r.share(1).part, 50);
    assert_eq!(r.share(2).part, 2);
}

#[test]
fn equal_values_are_ordered_by_name() {
    let t = table_of(&[("dave", 2, 0, 0), ("bob", 2, 0, 0), ("alice", 1, 0, 0), ("carol", 2, 0, 0)]);
    let r = rank(&t, Metric::Commits);
    assert_eq!(names_of(&r), vec!["bob", "carol", "dave", "alice"]);
    let l = rank(&t, Metric::Lines);
    assert_eq!(names_of(&l), vec!["alice", "bob", "carol", "dave"]);
}

#[test]
fn report_carries_the_column_totals() {
    let t = table_of(&[("alice", 3, 100, 7), ("bob", 10, 1, 1)]);
    let r = rank(&t, Metric::Commits);
    let totals = r.totals();
    assert_eq!((totals.commits, totals.lines_added, totals.lines_deleted), (13, 101, 8));
    assert_eq!(
        r.row(1).stats,
        ContributorStats { commits: 3, lines_added: 100, lines_deleted: 7 }
    );
}

#[test]
fn shares_add_up_to_one_hundred_percent() {
    let t = table_of(&[("alice", 1, 100, 0), ("bob", 1, 1, 1), ("carol", 1, 0, 50), ("dan", 4, 9, 9)]);
    for metric in [Metric::Commits, Metric::Lines] {
        let r = rank(&t, metric);
        let parts: u64 = (0..r.len()).map(|i| r.share(i).part).sum();
        assert_eq!(parts, r.whole());
        let sum: f64 = percentages(&r).iter().sum();
        assert!((sum - 100.0).abs() < 1e-9);
    }
}

#[test]
fn shares_are_zero_where_the_whole_is_zero() {
    let t = table_of(&[("alice", 0, 0, 0), ("bob", 0, 0, 0)]);
    let r = rank(&t, Metric::Commits);
    assert_eq!(r.whole(), 0);
    assert_eq!(percentages(&r), vec![0.0, 0.0]);
    let t = table_of(&[("alice", 4, 0, 0)]);
    let r = rank(&t, Metric::Lines);
    assert_eq!(percentages(&r), vec![0.0]);
}

#[test]
fn empty_table_gives_an_empty_report() {
    let r = rank(&StatsTable::new(), Metric::Commits);
    assert!(r.is_empty());
    assert_eq!(r.len(), 0);
    assert_eq!(r.whole(), 0);
    let totals = r.totals();
    assert_eq!((totals.commits, totals.lines_added, totals.lines_deleted), (0, 0, 0));
}

#[test]
fn value_of_each_metric() {
    let s = ContributorStats { commits: 3, lines_added: 10, lines_deleted: 4 };
    assert_eq!(value_of(s, Metric::Commits), 3);
    assert_eq!(value_of(s, Metric::Lines), 14);
}
