//! Ranking contributors by a metric, with column totals and shares.
//!
//! Rows are ordered by metric value, largest first. Rows of equal value are
//! ordered by name, ascending, so a report is the same on every run.

use vstd::prelude::*;
use crate::series::total;
use crate::series::{lemma_count_present, lemma_count_le_total, lemma_take_step, lemma_total_insert};
use crate::stats::{
    StatsTable, ContributorStats, ColumnTotals, commit_counts, added_counts, deleted_counts,
    total_commits, total_added, total_deleted, is_table, lemma_projections_ascending,
};
use crate::text::{
    precedes, str_precedes, lemma_precedes_irreflexive, lemma_precedes_transitive,
    lemma_precedes_total,
};

verus! {

/// The dimension that contributors are ranked by.
#[derive(Clone, Copy, Debug, PartialEq, Eq, Structural)]
pub enum Metric {
    /// The number of commits.
    Commits,
    /// The lines changed: added and deleted together.
    Lines,
}

/// The value of the metric for one contributor.
pub open spec fn metric_value(stats: ContributorStats, metric: Metric) -> nat {
    match metric {
        Metric::Commits => stats.commits as nat,
        Metric::Lines => (stats.lines_added + stats.lines_deleted) as nat,
    }
}

/// Row `a` stands before row `b` in a report: its value is larger, or the
/// values are equal and its name sorts first.
pub open spec fn outranks(
    a: (Seq<char>, ContributorStats),
    b: (Seq<char>, ContributorStats),
    metric: Metric,
) -> bool {
    metric_value(a.1, metric) > metric_value(b.1, metric) || (metric_value(a.1, metric)
        == metric_value(b.1, metric) && precedes(a.0, b.0))
}

/// Every row stands before all rows after it.
pub open spec fn ranked(rows: Seq<(Seq<char>, ContributorStats)>, metric: Metric) -> bool {
    forall|i: int, j: int|
        #![trigger rows[i], rows[j]]
        0 <= i < j < rows.len() ==> outranks(rows[i], rows[j], metric)
}

/// The metric values of all rows together: the whole that shares are parts of.
pub open spec fn metric_sum(rows: Seq<(Seq<char>, ContributorStats)>, metric: Metric) -> nat
    decreases rows.len(),
{
    if rows.len() == 0 {
        0
    } else {
        metric_sum(rows.drop_last(), metric) + metric_value(rows.last().1, metric)
    }
}

/// The whole is the sum of the column that the metric reads.
pub proof fn lemma_metric_sum_is_column_total(
    rows: Seq<(Seq<char>, ContributorStats)>,
    metric: Metric,
)
    ensures
        metric_sum(rows, metric) == match metric {
            Metric::Commits => total_commits(rows),
            Metric::Lines => total_added(rows) + total_deleted(rows),
        },
    decreases rows.len(),
{
    if rows.len() > 0 {
        lemma_metric_sum_is_column_total(rows.drop_last(), metric);
        assert(commit_counts(rows).drop_last() =~= commit_counts(rows.drop_last()));
        assert(added_counts(rows).drop_last() =~= added_counts(rows.drop_last()));
        assert(deleted_counts(rows).drop_last() =~= deleted_counts(rows.drop_last()));
    } else {
        assert(commit_counts(rows).len() == 0);
        assert(added_counts(rows).len() == 0);
        assert(deleted_counts(rows).len() == 0);
    }
}

/// No row's value exceeds the whole.
pub proof fn lemma_metric_value_le_sum(
    rows: Seq<(Seq<char>, ContributorStats)>,
    metric: Metric,
    i: int,
)
    requires
        0 <= i < rows.len(),
    ensures
        metric_value(rows[i].1, metric) <= metric_sum(rows, metric),
    decreases rows.len(),
{
    if i < rows.len() - 1 {
        lemma_metric_value_le_sum(rows.drop_last(), metric, i);
    }
}

/// The share of a contributor: `part` out of `whole`. As a percentage it is
/// `part / whole * 100`, and 0 where `whole` is 0.
#[derive(Clone, Copy, Debug, PartialEq, Eq, Structural)]
pub struct Share {
    pub part: u64,
    pub whole: u64,
}

/// The shares of a report add up to 100 percent. The parts of all rows
/// together are the whole, and the whole is the total of the column that the
/// metric reads; no part exceeds the whole. Where the whole is zero every
/// part is zero, and every share counts as zero.
pub proof fn lemma_shares_add_up(rows: Seq<(Seq<char>, ContributorStats)>, metric: Metric)
    ensures
        metric_sum(rows, metric) == match metric {
            Metric::Commits => total_commits(rows),
            Metric::Lines => total_added(rows) + total_deleted(rows),
        },
        forall|i: int|
            0 <= i < rows.len() ==> metric_value(#[trigger] rows[i].1, metric) <= metric_sum(
                rows,
                metric,
            ),
        metric_sum(rows, metric) == 0 ==> forall|i: int|
            0 <= i < rows.len() ==> metric_value(#[trigger] rows[i].1, metric) == 0,
{
    lemma_metric_sum_is_column_total(rows, metric);
    assert forall|i: int| 0 <= i < rows.len() implies metric_value(
        #[trigger] rows[i].1,
        metric,
    ) <= metric_sum(rows, metric) by {
        lemma_metric_value_le_sum(rows, metric, i);
    }
}

/// Of two rows with different names, one stands before the other.
proof fn lemma_outranks_total(
    a: (Seq<char>, ContributorStats),
    b: (Seq<char>, ContributorStats),
    metric: Metric,
)
    requires
        a.0 != b.0,
    ensures
        outranks(a, b, metric) || outranks(b, a, metric),
{
    lemma_precedes_total(a.0, b.0);
}

proof fn lemma_outranks_transitive(
    a: (Seq<char>, ContributorStats),
    b: (Seq<char>, ContributorStats),
    c: (Seq<char>, ContributorStats),
    metric: Metric,
)
    requires
        outranks(a, b, metric),
        outranks(b, c, metric),
    ensures
        outranks(a, c, metric),
{
    if precedes(a.0, b.0) && precedes(b.0, c.0) {
        lemma_precedes_transitive(a.0, b.0, c.0);
    }
}

/// One row of a report.
#[derive(Clone, Debug, PartialEq, Eq)]
pub struct RankedRow {
    pub name: String,
    pub stats: ContributorStats,
}

impl View for RankedRow {
    type V = (Seq<char>, ContributorStats);

    open spec fn view(&self) -> (Seq<char>, ContributorStats) {
        (self.name@, self.stats)
    }
}

/// The rows that a vector of rows stands for.
pub open spec fn rows_of(rows: Seq<RankedRow>) -> Seq<(Seq<char>, ContributorStats)> {
    Seq::new(rows.len(), |i: int| rows[i]@)
}

/// Whether the lines of the row, added and deleted together, fit in a `u64`.
pub open spec fn lines_fit(row: (Seq<char>, ContributorStats)) -> bool {
    row.1.lines_added + row.1.lines_deleted <= u64::MAX
}

/// The value of the metric for one contributor.
pub fn value_of(stats: ContributorStats, metric: Metric) -> (v: u64)
    requires
        stats.lines_added + stats.lines_deleted <= u64::MAX,
    ensures
        v == metric_value(stats, metric),
{
    match metric {
        Metric::Commits => stats.commits,
        Metric::Lines => stats.lines_added + stats.lines_deleted,
    }
}

/// Decides the ranking order between a row and a candidate.
fn row_outranks(row: &RankedRow, name: &str, stats: ContributorStats, metric: Metric) -> (b: bool)
    requires
        lines_fit(row@),
        stats.lines_added + stats.lines_deleted <= u64::MAX,
    ensures
        b == outranks(row@, (name@, stats), metric),
{
    let mine = value_of(row.stats, metric);
    let theirs = value_of(stats, metric);
    mine > theirs || (mine == theirs && str_precedes(row.name.as_str(), name))
}

/// The contributors in ranking order, with the column totals.
#[derive(Clone, Debug)]
pub struct RankedReport {
    rows: Vec<RankedRow>,
    metric: Metric,
    totals: ColumnTotals,
}

impl View for RankedReport {
    type V = Seq<(Seq<char>, ContributorStats)>;

    /// The `(name, totals)` rows in ranking order.
    closed spec fn view(&self) -> Seq<(Seq<char>, ContributorStats)> {
        rows_of(self.rows@)
    }
}

impl RankedReport {
    /// The metric that the report is ranked by.
    pub closed spec fn ranked_by(&self) -> Metric {
        self.metric
    }

    /// The column totals that the report carries.
    pub closed spec fn sums(&self) -> ColumnTotals {
        self.totals
    }

    /// The invariant of the type: the rows are in ranking order, and the
    /// totals carried are the sums of the columns, which fit in a `u64`.
    pub open spec fn wf(&self) -> bool {
        &&& ranked(self@, self.ranked_by())
        &&& self.sums().commits == total_commits(self@)
        &&& self.sums().lines_added == total_added(self@)
        &&& self.sums().lines_deleted == total_deleted(self@)
        &&& total_added(self@) + total_deleted(self@) <= u64::MAX
    }

    /// The number of rows.
    pub fn len(&self) -> (n: usize)
        ensures
            n == self@.len(),
    {
        self.rows.len()
    }

    /// Whether the report has no rows.
    pub fn is_empty(&self) -> (b: bool)
        ensures
            b == (self@.len() == 0),
    {
        self.rows.len() == 0
    }

    /// Row `i`, counting from the top of the ranking.
    pub fn row(&self, i: usize) -> (r: &RankedRow)
        requires
            i < self@.len(),
        ensures
            r@ == self@[i as int],
    {
        &self.rows[i]
    }

    /// The metric that the report is ranked by.
    pub fn metric(&self) -> (m: Metric)
        ensures
            m == self.ranked_by(),
    {
        self.metric
    }

    /// The sums of the three columns.
    pub fn totals(&self) -> (t: ColumnTotals)
        ensures
            t == self.sums(),
    {
        self.totals
    }

    /// The metric values of all rows together.
    pub fn whole(&self) -> (w: u64)
        requires
            self.wf(),
        ensures
            w == metric_sum(self@, self.ranked_by()),
    {
        proof {
            lemma_metric_sum_is_column_total(self@, self.metric);
        }
        match self.metric {
            Metric::Commits => self.totals.commits,
            Metric::Lines => self.totals.lines_added + self.totals.lines_deleted,
        }
    }

    /// The share of row `i`: its metric value out of the whole.
    pub fn share(&self, i: usize) -> (s: Share)
        requires
            self.wf(),
            i < self@.len(),
        ensures
            s.part == metric_value(self@[i as int].1, self.ranked_by()),
            s.whole == metric_sum(self@, self.ranked_by()),
            s.part <= s.whole,
    {
        let whole = self.whole();
        proof {
            lemma_metric_value_le_sum(self@, self.metric, i as int);
            let stats = self@[i as int].1;
            if self.metric == Metric::Commits {
                lemma_metric_value_le_sum(self@, Metric::Lines, i as int);
                lemma_metric_sum_is_column_total(self@, Metric::Lines);
            }
        }
        Share { part: value_of(self.rows[i].stats, self.metric), whole }
    }
}

/// Every row of a table has lines that fit in a `u64`.
proof fn lemma_table_lines_fit(t: Seq<(Seq<char>, ContributorStats)>, i: int)
    requires
        is_table(t),
        0 <= i < t.len(),
    ensures
        lines_fit(t[i]),
{
    lemma_projections_ascending(t);
    lemma_count_present(added_counts(t), i);
    lemma_count_present(deleted_counts(t), i);
    lemma_count_le_total(added_counts(t), t[i].0);
    lemma_count_le_total(deleted_counts(t), t[i].0);
}

/// Ranks the contributors of a table by the metric: largest value first, and
/// among equal values the smaller name first. The report holds exactly the
/// rows of the table.
pub fn rank(table: &StatsTable, metric: Metric) -> (report: RankedReport)
    requires
        table.wf(),
    ensures
        report.wf(),
        report.ranked_by() == metric,
        report@.to_multiset() == table@.to_multiset(),
        report@.len() == table@.len(),
        total_commits(report@) == total_commits(table@),
        total_added(report@) == total_added(table@),
        total_deleted(report@) == total_deleted(table@),
{
    let ghost t = table@;
    let mut rows: Vec<RankedRow> = Vec::new();
    let mut i: usize = 0;
    proof {
        assert(rows_of(rows@) =~= t.take(0));
        assert(commit_counts(rows_of(rows@)) =~= commit_counts(t).take(0));
        assert(added_counts(rows_of(rows@)) =~= added_counts(t).take(0));
        assert(deleted_counts(rows_of(rows@)) =~= deleted_counts(t).take(0));
    }
    while i < table.len()
        invariant
            t == table@,
            table.wf(),
            i <= t.len(),
            rows@.len() == i,
            ranked(rows_of(rows@), metric),
            rows_of(rows@).to_multiset() == t.take(i as int).to_multiset(),
            forall|j: int| 0 <= j < rows@.len() ==> lines_fit((#[trigger] rows@[j])@),
            total_commits(rows_of(rows@)) == total(commit_counts(t).take(i as int)),
            total_added(rows_of(rows@)) == total(added_counts(t).take(i as int)),
            total_deleted(rows_of(rows@)) == total(deleted_counts(t).take(i as int)),
        decreases t.len() - i,
    {
        let name = table.name_at(i);
        let stats = table.stats_at(i);
        let ghost x = (name@, stats);
        let ghost before = rows_of(rows@);
        proof {
            lemma_table_lines_fit(t, i as int);
        }
        let mut p: usize = 0;
        while p < rows.len() && row_outranks(&rows[p], name.as_str(), stats, metric)
            invariant
                p <= rows@.len(),
                before == rows_of(rows@),
                x == (name@, stats),
                lines_fit(x),
                forall|j: int| 0 <= j < rows@.len() ==> lines_fit((#[trigger] rows@[j])@),
                forall|j: int| 0 <= j < p ==> outranks(#[trigger] before[j], x, metric),
            decreases rows@.len() - p,
        {
            assert(rows[p as int]@ == before[p as int]);
            p += 1;
        }
        proof {
            assert(p < before.len() ==> rows[p as int]@ == before[p as int]);
            assert forall|j: int| 0 <= j < before.len() implies (#[trigger] before[j]).0
                != x.0 by {
                broadcast use vstd::seq_lib::group_to_multiset_ensures;

                assert(before.contains(before[j]));
                vstd::seq_lib::to_multiset_contains(before, before[j]);
                vstd::seq_lib::to_multiset_contains(t.take(i as int), before[j]);
                let k = choose|k: int| 0 <= k < t.take(i as int).len() && t.take(i as int)[k]
                    == before[j];
                assert(t[k] == before[j]);
                assert(precedes(commit_counts(t)[k].0, commit_counts(t)[i as int].0));
                lemma_precedes_irreflexive(x.0);
            }
            assert forall|j: int| p <= j < before.len() implies outranks(
                x,
                #[trigger] before[j],
                metric,
            ) by {
                lemma_outranks_total(x, before[p as int], metric);
                if j > p {
                    lemma_outranks_transitive(x, before[p as int], before[j], metric);
                }
            }
        }
        rows.insert(p, RankedRow { name: name.clone(), stats });
        proof {
            let after = rows_of(rows@);
            assert(after =~= before.insert(p as int, x));
            assert forall|a: int, b: int| 0 <= a < b < after.len() implies outranks(
                #[trigger] after[a],
                #[trigger] after[b],
                metric,
            ) by {
                if b < p {
                    assert(after[a] == before[a] && after[b] == before[b]);
                } else if b == p {
                    assert(after[a] == before[a]);
                } else if a < p {
                    assert(after[a] == before[a] && after[b] == before[b - 1]);
                } else if a == p {
                    assert(after[b] == before[b - 1]);
                } else {
                    assert(after[a] == before[a - 1] && after[b] == before[b - 1]);
                }
            }
            vstd::seq_lib::to_multiset_insert(before, p as int, x);
            assert(t.take(i + 1) =~= t.take(i as int).push(x));
            vstd::seq_lib::to_multiset_build(t.take(i as int), x);
            assert(commit_counts(after) =~= commit_counts(before).insert(
                p as int,
                (x.0, x.1.commits),
            ));
            assert(added_counts(after) =~= added_counts(before).insert(
                p as int,
                (x.0, x.1.lines_added),
            ));
            assert(deleted_counts(after) =~= deleted_counts(before).insert(
                p as int,
                (x.0, x.1.lines_deleted),
            ));
            lemma_total_insert(commit_counts(before), p as int, (x.0, x.1.commits));
            lemma_total_insert(added_counts(before), p as int, (x.0, x.1.lines_added));
            lemma_total_insert(deleted_counts(before), p as int, (x.0, x.1.lines_deleted));
            lemma_take_step(commit_counts(t), i as int);
            lemma_take_step(added_counts(t), i as int);
            lemma_take_step(deleted_counts(t), i as int);
        }
        i += 1;
    }
    let totals = table.totals();
    proof {
        assert(t.take(i as int) =~= t);
        assert(commit_counts(t).take(i as int) =~= commit_counts(t));
        assert(added_counts(t).take(i as int) =~= added_counts(t));
        assert(deleted_counts(t).take(i as int) =~= deleted_counts(t));
        assert(rows_of(rows@).len() == t.len());
    }
    RankedReport { rows, metric, totals }
}

} // verus!
