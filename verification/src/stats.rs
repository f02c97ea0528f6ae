//! Per-contributor totals, keyed by canonical identity.
//!
//! A table keeps one row per identity, ascending by name. Its grand totals
//! fit in a `u64`: the commits of all rows together, and the lines added and
//! deleted of all rows together. Every sum taken over a table is therefore
//! free of overflow.

use vstd::prelude::*;
use crate::series::{
    total, count_at, has_key, keys_ascending, lemma_count_present, lemma_count_le_total,
    lemma_insert_new, lemma_raise_existing, lemma_series_extensional, lemma_take_step,
};
use crate::text::{
    precedes, str_precedes, str_same, lemma_precedes_irreflexive, lemma_precedes_transitive,
    lemma_precedes_total,
};

verus! {

/// The running totals of one contributor.
#[derive(Clone, Copy, Debug, PartialEq, Eq, Structural)]
pub struct ContributorStats {
    pub commits: u64,
    pub lines_added: u64,
    pub lines_deleted: u64,
}

/// The rows of `t` with their commit counts alone.
pub open spec fn commit_counts(t: Seq<(Seq<char>, ContributorStats)>) -> Seq<(Seq<char>, u64)> {
    Seq::new(t.len(), |i: int| (t[i].0, t[i].1.commits))
}

/// The rows of `t` with their added lines alone.
pub open spec fn added_counts(t: Seq<(Seq<char>, ContributorStats)>) -> Seq<(Seq<char>, u64)> {
    Seq::new(t.len(), |i: int| (t[i].0, t[i].1.lines_added))
}

/// The rows of `t` with their deleted lines alone.
pub open spec fn deleted_counts(t: Seq<(Seq<char>, ContributorStats)>) -> Seq<(Seq<char>, u64)> {
    Seq::new(t.len(), |i: int| (t[i].0, t[i].1.lines_deleted))
}

/// Some row of `t` is named `name`.
pub open spec fn has_name(t: Seq<(Seq<char>, ContributorStats)>, name: Seq<char>) -> bool {
    has_key(commit_counts(t), name)
}

/// The commits that `t` holds for `name`; 0 where it has no such row.
pub open spec fn commits_of(t: Seq<(Seq<char>, ContributorStats)>, name: Seq<char>) -> nat {
    count_at(commit_counts(t), name)
}

/// The added lines that `t` holds for `name`; 0 where it has no such row.
pub open spec fn added_of(t: Seq<(Seq<char>, ContributorStats)>, name: Seq<char>) -> nat {
    count_at(added_counts(t), name)
}

/// The deleted lines that `t` holds for `name`; 0 where it has no such row.
pub open spec fn deleted_of(t: Seq<(Seq<char>, ContributorStats)>, name: Seq<char>) -> nat {
    count_at(deleted_counts(t), name)
}

/// The commits of all rows together.
pub open spec fn total_commits(t: Seq<(Seq<char>, ContributorStats)>) -> nat {
    total(commit_counts(t))
}

/// The added lines of all rows together.
pub open spec fn total_added(t: Seq<(Seq<char>, ContributorStats)>) -> nat {
    total(added_counts(t))
}

/// The deleted lines of all rows together.
pub open spec fn total_deleted(t: Seq<(Seq<char>, ContributorStats)>) -> nat {
    total(deleted_counts(t))
}

/// What every table satisfies: names ascending, so unique, and grand totals
/// within `u64`.
pub open spec fn is_table(t: Seq<(Seq<char>, ContributorStats)>) -> bool {
    &&& keys_ascending(commit_counts(t))
    &&& total_commits(t) <= u64::MAX
    &&& total_added(t) + total_deleted(t) <= u64::MAX
}

/// How a table changes when a contribution of `commits`, `added` and
/// `deleted` is recorded for `name`: that row grows by the contribution,
/// coming into being where it was missing, and no other row changes.
pub open spec fn recorded(
    before: Seq<(Seq<char>, ContributorStats)>,
    after: Seq<(Seq<char>, ContributorStats)>,
    name: Seq<char>,
    commits: u64,
    added: u64,
    deleted: u64,
) -> bool {
    &&& total_commits(after) == total_commits(before) + commits
    &&& total_added(after) == total_added(before) + added
    &&& total_deleted(after) == total_deleted(before) + deleted
    &&& forall|q: Seq<char>| #[trigger] has_name(after, q) == (has_name(before, q) || q == name)
    &&& forall|q: Seq<char>| #[trigger]
        commits_of(after, q) == commits_of(before, q) + if q == name {
            commits as nat
        } else {
            0
        }
    &&& forall|q: Seq<char>| #[trigger]
        added_of(after, q) == added_of(before, q) + if q == name {
            added as nat
        } else {
            0
        }
    &&& forall|q: Seq<char>| #[trigger]
        deleted_of(after, q) == deleted_of(before, q) + if q == name {
            deleted as nat
        } else {
            0
        }
}

/// One contributor with their totals.
#[derive(Clone, Debug)]
struct StatsRow {
    name: String,
    stats: ContributorStats,
}

/// The totals of all contributors, one row per canonical identity.
#[derive(Clone, Debug)]
pub struct StatsTable {
    rows: Vec<StatsRow>,
}

impl View for StatsTable {
    type V = Seq<(Seq<char>, ContributorStats)>;

    /// The `(name, totals)` rows in ascending name order.
    closed spec fn view(&self) -> Seq<(Seq<char>, ContributorStats)> {
        Seq::new(self.rows@.len(), |i: int| (self.rows@[i].name@, self.rows@[i].stats))
    }
}

/// The sums of a table's three columns.
#[derive(Clone, Copy, Debug, PartialEq, Eq, Structural)]
pub struct ColumnTotals {
    pub commits: u64,
    pub lines_added: u64,
    pub lines_deleted: u64,
}

impl StatsTable {
    /// The invariant of the type: see [`is_table`].
    pub open spec fn wf(&self) -> bool {
        is_table(self@)
    }

    /// The table without rows.
    pub fn new() -> (r: Self)
        ensures
            r.wf(),
            r@.len() == 0,
    {
        let r = StatsTable { rows: Vec::new() };
        assert(r@.len() == 0);
        assert(commit_counts(r@).len() == 0);
        assert(added_counts(r@).len() == 0);
        assert(deleted_counts(r@).len() == 0);
        r
    }

    /// The number of contributors.
    pub fn len(&self) -> (n: usize)
        ensures
            n == self@.len(),
    {
        self.rows.len()
    }

    /// The name of row `i`, counting from the smallest name.
    pub fn name_at(&self, i: usize) -> (name: &String)
        requires
            i < self@.len(),
        ensures
            name@ == self@[i as int].0,
    {
        &self.rows[i].name
    }

    /// The totals of row `i`, counting from the smallest name.
    pub fn stats_at(&self, i: usize) -> (stats: ContributorStats)
        requires
            i < self@.len(),
        ensures
            stats == self@[i as int].1,
    {
        self.rows[i].stats
    }

    /// The sums of the three columns.
    pub fn totals(&self) -> (t: ColumnTotals)
        requires
            self.wf(),
        ensures
            t.commits == total_commits(self@),
            t.lines_added == total_added(self@),
            t.lines_deleted == total_deleted(self@),
    {
        let mut commits: u64 = 0;
        let mut added: u64 = 0;
        let mut deleted: u64 = 0;
        let mut i: usize = 0;
        while i < self.rows.len()
            invariant
                i <= self.rows@.len(),
                self.rows@.len() == self@.len(),
                self.wf(),
                commits == total(commit_counts(self@).take(i as int)),
                added == total(added_counts(self@).take(i as int)),
                deleted == total(deleted_counts(self@).take(i as int)),
            decreases self.rows@.len() - i,
        {
            proof {
                lemma_take_step(commit_counts(self@), i as int);
                lemma_take_step(added_counts(self@), i as int);
                lemma_take_step(deleted_counts(self@), i as int);
            }
            commits = commits + self.rows[i].stats.commits;
            added = added + self.rows[i].stats.lines_added;
            deleted = deleted + self.rows[i].stats.lines_deleted;
            i += 1;
        }
        proof {
            assert(commit_counts(self@).take(i as int) =~= commit_counts(self@));
            assert(added_counts(self@).take(i as int) =~= added_counts(self@));
            assert(deleted_counts(self@).take(i as int) =~= deleted_counts(self@));
        }
        ColumnTotals { commits, lines_added: added, lines_deleted: deleted }
    }

    /// The number of names that sort before `name`: where `name` is, or belongs.
    fn position(&self, name: &str) -> (p: usize)
        requires
            self.wf(),
        ensures
            p <= self@.len(),
            forall|j: int| 0 <= j < p ==> precedes((#[trigger] self@[j]).0, name@),
            forall|j: int| p <= j < self@.len() ==> !precedes((#[trigger] self@[j]).0, name@),
    {
        let mut lo: usize = 0;
        let mut hi: usize = self.rows.len();
        while lo < hi
            invariant
                lo <= hi <= self@.len(),
                self.rows@.len() == self@.len(),
                self.wf(),
                forall|j: int| 0 <= j < lo ==> precedes((#[trigger] self@[j]).0, name@),
                forall|j: int| hi <= j < self@.len() ==> !precedes((#[trigger] self@[j]).0, name@),
            decreases hi - lo,
        {
            let mid = lo + (hi - lo) / 2;
            let ghost c = commit_counts(self@);
            if str_precedes(self.rows[mid].name.as_str(), name) {
                proof {
                    assert forall|j: int| 0 <= j < mid + 1 implies precedes(
                        (#[trigger] self@[j]).0,
                        name@,
                    ) by {
                        if j < mid {
                            assert(precedes(c[j].0, c[mid as int].0));
                            lemma_precedes_transitive(self@[j].0, self@[mid as int].0, name@);
                        }
                    }
                }
                lo = mid + 1;
            } else {
                proof {
                    assert forall|j: int| mid <= j < self@.len() implies !precedes(
                        (#[trigger] self@[j]).0,
                        name@,
                    ) by {
                        if j > mid && precedes(self@[j].0, name@) {
                            assert(precedes(c[mid as int].0, c[j].0));
                            lemma_precedes_transitive(self@[mid as int].0, self@[j].0, name@);
                        }
                    }
                }
                hi = mid;
            }
        }
        lo
    }

    /// The totals held for `name`, if the table has that row.
    pub fn get(&self, name: &str) -> (r: Option<ContributorStats>)
        requires
            self.wf(),
        ensures
            r is Some == has_name(self@, name@),
            r is Some ==> r->0.commits == commits_of(self@, name@),
            r is Some ==> r->0.lines_added == added_of(self@, name@),
            r is Some ==> r->0.lines_deleted == deleted_of(self@, name@),
    {
        let p = self.position(name);
        if p < self.rows.len() && str_same(self.rows[p].name.as_str(), name) {
            proof {
                self.lemma_row(p as int);
            }
            Some(self.rows[p].stats)
        } else {
            proof {
                self.lemma_absent_at(p as int, name@);
            }
            None
        }
    }

    /// Records a contribution for `name`: adds it to that row, creating the
    /// row where the name is new. Returns `false`, leaving the table as it
    /// was, where a grand total would no longer fit in a `u64`.
    pub fn record(&mut self, name: &str, commits: u64, added: u64, deleted: u64) -> (ok: bool)
        requires
            old(self).wf(),
        ensures
            final(self).wf(),
            ok == (total_commits(old(self)@) + commits <= u64::MAX && total_added(old(self)@)
                + total_deleted(old(self)@) + added + deleted <= u64::MAX),
            !ok ==> final(self)@ == old(self)@,
            ok ==> recorded(old(self)@, final(self)@, name@, commits, added, deleted),
            ok ==> final(self)@.len() == old(self)@.len() + if has_name(old(self)@, name@) {
                0int
            } else {
                1
            },
    {
        let sums = self.totals();
        if commits > u64::MAX - sums.commits {
            return false;
        }
        let lines = sums.lines_added + sums.lines_deleted;
        if added > u64::MAX - lines || deleted > u64::MAX - lines - added {
            return false;
        }
        let ghost before = self@;
        let ghost bc = commit_counts(before);
        let ghost ba = added_counts(before);
        let ghost bd = deleted_counts(before);
        proof {
            lemma_projections_ascending(before);
        }
        let p = self.position(name);
        if p < self.rows.len() && str_same(self.rows[p].name.as_str(), name) {
            proof {
                self.lemma_row(p as int);
                lemma_count_le_total(bc, name@);
                lemma_count_le_total(ba, name@);
                lemma_count_le_total(bd, name@);
                lemma_raise_existing(bc, p as int, commits);
                lemma_raise_existing(ba, p as int, added);
                lemma_raise_existing(bd, p as int, deleted);
            }
            let old_stats = self.rows[p].stats;
            let raised = ContributorStats {
                commits: old_stats.commits + commits,
                lines_added: old_stats.lines_added + added,
                lines_deleted: old_stats.lines_deleted + deleted,
            };
            self.rows[p].stats = raised;
            proof {
                assert(self@ =~= before.update(p as int, (name@, raised)));
                assert(commit_counts(self@) =~= bc.update(p as int, (name@, raised.commits)));
                assert(added_counts(self@) =~= ba.update(p as int, (name@, raised.lines_added)));
                assert(deleted_counts(self@) =~= bd.update(
                    p as int,
                    (name@, raised.lines_deleted),
                ));
            }
        } else {
            proof {
                self.lemma_absent_at(p as int, name@);
                assert forall|j: int| 0 <= j < p implies precedes((#[trigger] bc[j]).0, name@) by {
                    assert(bc[j].0 == before[j].0);
                }
                assert forall|j: int| p <= j < bc.len() implies precedes(
                    name@,
                    (#[trigger] bc[j]).0,
                ) by {
                    assert(bc[j].0 == before[j].0);
                }
                assert forall|j: int| 0 <= j < p implies precedes((#[trigger] ba[j]).0, name@) by {
                    assert(ba[j].0 == before[j].0);
                }
                assert forall|j: int| p <= j < ba.len() implies precedes(
                    name@,
                    (#[trigger] ba[j]).0,
                ) by {
                    assert(ba[j].0 == before[j].0);
                }
                assert forall|j: int| 0 <= j < p implies precedes((#[trigger] bd[j]).0, name@) by {
                    assert(bd[j].0 == before[j].0);
                }
                assert forall|j: int| p <= j < bd.len() implies precedes(
                    name@,
                    (#[trigger] bd[j]).0,
                ) by {
                    assert(bd[j].0 == before[j].0);
                }
                lemma_insert_new(bc, p as int, name@, commits);
                lemma_insert_new(ba, p as int, name@, added);
                lemma_insert_new(bd, p as int, name@, deleted);
            }
            let stats = ContributorStats { commits, lines_added: added, lines_deleted: deleted };
            self.rows.insert(p, StatsRow { name: name.to_owned(), stats });
            proof {
                assert(self@ =~= before.insert(p as int, (name@, stats)));
                assert(commit_counts(self@) =~= bc.insert(p as int, (name@, commits)));
                assert(added_counts(self@) =~= ba.insert(p as int, (name@, added)));
                assert(deleted_counts(self@) =~= bd.insert(p as int, (name@, deleted)));
            }
        }
        true
    }

    /// A row's totals are what the table holds for its name.
    proof fn lemma_row(&self, p: int)
        requires
            self.wf(),
            0 <= p < self@.len(),
        ensures
            has_name(self@, self@[p].0),
            commits_of(self@, self@[p].0) == self@[p].1.commits,
            added_of(self@, self@[p].0) == self@[p].1.lines_added,
            deleted_of(self@, self@[p].0) == self@[p].1.lines_deleted,
    {
        let t = self@;
        lemma_projections_ascending(t);
        assert(commit_counts(t)[p].0 == t[p].0);
        lemma_count_present(commit_counts(t), p);
        lemma_count_present(added_counts(t), p);
        lemma_count_present(deleted_counts(t), p);
    }

    /// A name that is not at its sorted position is not in the table.
    proof fn lemma_absent_at(&self, p: int, k: Seq<char>)
        requires
            self.wf(),
            0 <= p <= self@.len(),
            forall|j: int| 0 <= j < p ==> precedes((#[trigger] self@[j]).0, k),
            forall|j: int| p <= j < self@.len() ==> !precedes((#[trigger] self@[j]).0, k),
            p < self@.len() ==> self@[p].0 != k,
        ensures
            !has_name(self@, k),
            forall|j: int| p <= j < self@.len() ==> precedes(k, (#[trigger] self@[j]).0),
    {
        let t = self@;
        let c = commit_counts(t);
        assert forall|j: int| p <= j < t.len() implies precedes(k, (#[trigger] t[j]).0) by {
            if t[j].0 == k {
                assert(j > p);
                assert(precedes(c[p].0, c[j].0));
            }
            lemma_precedes_total(k, t[j].0);
        }
        assert forall|j: int| 0 <= j < c.len() implies (#[trigger] c[j]).0 != k by {
            assert(c[j].0 == t[j].0);
            lemma_precedes_irreflexive(k);
        }
    }
}

/// The three projections of a table share its names, so all are ascending.
pub proof fn lemma_projections_ascending(t: Seq<(Seq<char>, ContributorStats)>)
    requires
        keys_ascending(commit_counts(t)),
    ensures
        keys_ascending(added_counts(t)),
        keys_ascending(deleted_counts(t)),
        forall|q: Seq<char>| has_key(added_counts(t), q) == has_name(t, q),
        forall|q: Seq<char>| has_key(deleted_counts(t), q) == has_name(t, q),
{
    let c = commit_counts(t);
    let a = added_counts(t);
    let d = deleted_counts(t);
    assert forall|i: int, j: int| 0 <= i < j < a.len() implies precedes(
        (#[trigger] a[i]).0,
        (#[trigger] a[j]).0,
    ) by {
        assert(precedes(c[i].0, c[j].0));
    }
    assert forall|i: int, j: int| 0 <= i < j < d.len() implies precedes(
        (#[trigger] d[i]).0,
        (#[trigger] d[j]).0,
    ) by {
        assert(precedes(c[i].0, c[j].0));
    }
    assert forall|q: Seq<char>| has_key(a, q) == has_name(t, q) by {
        if has_key(a, q) {
            let i = choose|i: int| 0 <= i < a.len() && (#[trigger] a[i]).0 == q;
            assert(c[i].0 == q);
        }
        if has_key(c, q) {
            let i = choose|i: int| 0 <= i < c.len() && (#[trigger] c[i]).0 == q;
            assert(a[i].0 == q);
        }
    }
    assert forall|q: Seq<char>| has_key(d, q) == has_name(t, q) by {
        if has_key(d, q) {
            let i = choose|i: int| 0 <= i < d.len() && (#[trigger] d[i]).0 == q;
            assert(c[i].0 == q);
        }
        if has_key(c, q) {
            let i = choose|i: int| 0 <= i < c.len() && (#[trigger] c[i]).0 == q;
            assert(d[i].0 == q);
        }
    }
}

/// A table is determined by its names and the totals under each: two tables
/// that agree on both are the same sequence of rows.
pub proof fn lemma_table_extensional(
    a: Seq<(Seq<char>, ContributorStats)>,
    b: Seq<(Seq<char>, ContributorStats)>,
)
    requires
        keys_ascending(commit_counts(a)),
        keys_ascending(commit_counts(b)),
        forall|q: Seq<char>| has_name(a, q) == has_name(b, q),
        forall|q: Seq<char>| commits_of(a, q) == commits_of(b, q),
        forall|q: Seq<char>| added_of(a, q) == added_of(b, q),
        forall|q: Seq<char>| deleted_of(a, q) == deleted_of(b, q),
    ensures
        a == b,
{
    lemma_projections_ascending(a);
    lemma_projections_ascending(b);
    assert forall|q: Seq<char>| has_key(commit_counts(a), q) == has_key(commit_counts(b), q) by {
        assert(has_name(a, q) == has_name(b, q));
    }
    assert forall|q: Seq<char>| has_key(added_counts(a), q) == has_key(added_counts(b), q) by {
        assert(has_name(a, q) == has_name(b, q));
    }
    assert forall|q: Seq<char>| has_key(deleted_counts(a), q) == has_key(deleted_counts(b), q) by {
        assert(has_name(a, q) == has_name(b, q));
    }
    assert forall|q: Seq<char>| count_at(commit_counts(a), q) == count_at(commit_counts(b), q) by {
        assert(commits_of(a, q) == commits_of(b, q));
    }
    assert forall|q: Seq<char>| count_at(added_counts(a), q) == count_at(added_counts(b), q) by {
        assert(added_of(a, q) == added_of(b, q));
    }
    assert forall|q: Seq<char>| count_at(deleted_counts(a), q) == count_at(
        deleted_counts(b),
        q,
    ) by {
        assert(deleted_of(a, q) == deleted_of(b, q));
    }
    lemma_series_extensional(commit_counts(a), commit_counts(b));
    lemma_series_extensional(added_counts(a), added_counts(b));
    lemma_series_extensional(deleted_counts(a), deleted_counts(b));
    assert(a.len() == commit_counts(a).len());
    assert(b.len() == commit_counts(b).len());
    assert forall|i: int| 0 <= i < a.len() implies a[i] == b[i] by {
        assert(commit_counts(a)[i] == commit_counts(b)[i]);
        assert(added_counts(a)[i] == added_counts(b)[i]);
        assert(deleted_counts(a)[i] == deleted_counts(b)[i]);
    }
    assert(a =~= b);
}

} // verus!
