//! Folding raw records into per-contributor totals and per-date series,
//! under an alias mapping.

use vstd::prelude::*;
use crate::alias::{AliasMap, resolved};
use crate::series::{DateSeries, total, count_at, has_key};
use crate::text::str_same;
use crate::stats::{
    StatsTable, ContributorStats, has_name, commits_of, added_of, deleted_of, total_commits,
    total_added, total_deleted, commit_counts, added_counts, deleted_counts, is_table,
    lemma_table_extensional,
};

verus! {

/// What a raw record is evidence of.
#[derive(Clone, Copy, Debug, PartialEq, Eq, Structural)]
pub enum RecordKind {
    /// One commit.
    Commit,
    /// The lines added to and deleted from one changed file.
    Lines { added: u64, deleted: u64 },
}

/// One unit of evidence from the history: who, when and what.
#[derive(Clone, Debug, PartialEq, Eq)]
pub struct RawRecord {
    /// The author identity as recorded, before alias resolution.
    pub author: String,
    /// The calendar day of the commit.
    pub date: String,
    pub kind: RecordKind,
}

/// A raw record as a value: its author and date as character sequences.
pub ghost struct Event {
    pub author: Seq<char>,
    pub date: Seq<char>,
    pub kind: RecordKind,
}

impl View for RawRecord {
    type V = Event;

    open spec fn view(&self) -> Event {
        Event { author: self.author@, date: self.date@, kind: self.kind }
    }
}

/// The events that a list of records stands for.
pub open spec fn events_of(records: Seq<RawRecord>) -> Seq<Event> {
    Seq::new(records.len(), |i: int| records[i]@)
}

/// The sum of the weights that `w` gives to the events.
pub open spec fn sum_by(events: Seq<Event>, w: spec_fn(Event) -> nat) -> nat
    decreases events.len(),
{
    if events.len() == 0 {
        0
    } else {
        sum_by(events.drop_last(), w) + w(events.last())
    }
}

/// The event counts for the canonical identity `c`: its author resolves to `c`.
pub open spec fn credited(e: Event, m: Map<Seq<char>, Seq<char>>, c: Seq<char>) -> bool {
    resolved(m, e.author) == c
}

/// 1 for a commit, 0 for anything else.
pub open spec fn commit_weight(e: Event) -> nat {
    match e.kind {
        RecordKind::Commit => 1,
        RecordKind::Lines { .. } => 0,
    }
}

/// The lines that the event adds.
pub open spec fn added_weight(e: Event) -> nat {
    match e.kind {
        RecordKind::Commit => 0,
        RecordKind::Lines { added, .. } => added as nat,
    }
}

/// The lines that the event deletes.
pub open spec fn deleted_weight(e: Event) -> nat {
    match e.kind {
        RecordKind::Commit => 0,
        RecordKind::Lines { deleted, .. } => deleted as nat,
    }
}

/// What an event adds to the commits of `c`.
pub open spec fn commit_share(m: Map<Seq<char>, Seq<char>>, c: Seq<char>) -> spec_fn(Event) -> nat {
    |e: Event|
        if credited(e, m, c) {
            commit_weight(e)
        } else {
            0
        }
}

/// What an event adds to the lines added of `c`.
pub open spec fn added_share(m: Map<Seq<char>, Seq<char>>, c: Seq<char>) -> spec_fn(Event) -> nat {
    |e: Event|
        if credited(e, m, c) {
            added_weight(e)
        } else {
            0
        }
}

/// What an event adds to the lines deleted of `c`.
pub open spec fn deleted_share(m: Map<Seq<char>, Seq<char>>, c: Seq<char>) -> spec_fn(
    Event,
) -> nat {
    |e: Event|
        if credited(e, m, c) {
            deleted_weight(e)
        } else {
            0
        }
}

/// The number of commit events whose author resolves to `c`.
pub open spec fn commits_in(events: Seq<Event>, m: Map<Seq<char>, Seq<char>>, c: Seq<char>) -> nat {
    sum_by(events, commit_share(m, c))
}

/// The lines added by the events whose author resolves to `c`.
pub open spec fn added_in(events: Seq<Event>, m: Map<Seq<char>, Seq<char>>, c: Seq<char>) -> nat {
    sum_by(events, added_share(m, c))
}

/// The lines deleted by the events whose author resolves to `c`.
pub open spec fn deleted_in(events: Seq<Event>, m: Map<Seq<char>, Seq<char>>, c: Seq<char>) -> nat {
    sum_by(events, deleted_share(m, c))
}

/// Some event's author resolves to `c`.
pub open spec fn is_contributor(
    events: Seq<Event>,
    m: Map<Seq<char>, Seq<char>>,
    c: Seq<char>,
) -> bool {
    exists|i: int| 0 <= i < events.len() && credited(#[trigger] events[i], m, c)
}

/// What an event adds to the lines changed of all contributors together.
pub open spec fn every_line() -> spec_fn(Event) -> nat {
    |e: Event| added_weight(e) + deleted_weight(e)
}

/// The lines added and deleted by all events together.
pub open spec fn all_lines(events: Seq<Event>) -> nat {
    sum_by(events, every_line())
}

/// The table `t` holds the totals of `events` under the mapping `m`: one row
/// for each canonical identity that some event is credited to, with the
/// number of its commits and the sums of its added and deleted lines.
pub open spec fn tallied(
    t: Seq<(Seq<char>, ContributorStats)>,
    events: Seq<Event>,
    m: Map<Seq<char>, Seq<char>>,
) -> bool {
    &&& forall|c: Seq<char>| #[trigger] has_name(t, c) == is_contributor(events, m, c)
    &&& forall|c: Seq<char>| #[trigger] commits_of(t, c) == commits_in(events, m, c)
    &&& forall|c: Seq<char>| #[trigger] added_of(t, c) == added_in(events, m, c)
    &&& forall|c: Seq<char>| #[trigger] deleted_of(t, c) == deleted_in(events, m, c)
}

/// A sum over two runs of events is the sum of the sums over each.
pub proof fn lemma_sum_concat(a: Seq<Event>, b: Seq<Event>, w: spec_fn(Event) -> nat)
    ensures
        sum_by(a + b, w) == sum_by(a, w) + sum_by(b, w),
    decreases b.len(),
{
    if b.len() == 0 {
        assert(a + b =~= a);
    } else {
        assert((a + b).drop_last() =~= a + b.drop_last());
        lemma_sum_concat(a, b.drop_last(), w);
    }
}

/// What the event at index `i` adds to the sum over the first `i` events.
pub proof fn lemma_sum_step(events: Seq<Event>, i: int, w: spec_fn(Event) -> nat)
    requires
        0 <= i < events.len(),
    ensures
        sum_by(events.take(i + 1), w) == sum_by(events.take(i), w) + w(events[i]),
        sum_by(events.take(i + 1), w) <= sum_by(events, w),
{
    let b = events.take(i + 1);
    assert(b.drop_last() =~= events.take(i));
    assert(events =~= b + events.skip(i + 1));
    lemma_sum_concat(b, events.skip(i + 1), w);
}

/// A sum over events does not depend on their order.
pub proof fn lemma_sum_permutation(e1: Seq<Event>, e2: Seq<Event>, w: spec_fn(Event) -> nat)
    requires
        e1.to_multiset() == e2.to_multiset(),
    ensures
        sum_by(e1, w) == sum_by(e2, w),
    decreases e1.len(),
{
    broadcast use vstd::seq_lib::group_to_multiset_ensures;

    if e1.len() == 0 {
        assert(e2.to_multiset().len() == 0);
        assert(e2.len() == 0);
    } else {
        let x = e1.last();
        assert(e1.to_multiset().count(x) > 0);
        assert(e2.contains(x));
        let i = choose|i: int| 0 <= i < e2.len() && e2[i] == x;
        assert(e1.drop_last() =~= e1.remove(e1.len() - 1));
        lemma_sum_permutation(e1.drop_last(), e2.remove(i), w);
        let left = e2.take(i);
        let right = e2.skip(i + 1);
        assert(e2 =~= left + seq![x] + right);
        assert(e2.remove(i) =~= left + right);
        lemma_sum_concat(left + seq![x], right, w);
        lemma_sum_concat(left, seq![x], w);
        lemma_sum_concat(left, right, w);
        assert(seq![x].drop_last().len() == 0);
        assert(sum_by(seq![x].drop_last(), w) == 0);
        assert(seq![x].last() == x);
    }
}

/// The test for a commit whose author resolves to `c`.
pub open spec fn commit_of(m: Map<Seq<char>, Seq<char>>, c: Seq<char>) -> spec_fn(Event) -> bool {
    |e: Event| e.kind is Commit && credited(e, m, c)
}

/// The commits of a canonical identity are counted: they are as many as
/// there are commit records whose author resolves to it, directly or by an
/// alias.
pub proof fn lemma_commits_are_counted(
    events: Seq<Event>,
    m: Map<Seq<char>, Seq<char>>,
    c: Seq<char>,
)
    ensures
        commits_in(events, m, c) == events.filter(commit_of(m, c)).len(),
    decreases events.len(),
{
    reveal(Seq::filter);
    if events.len() > 0 {
        lemma_commits_are_counted(events.drop_last(), m, c);
    }
}

/// The totals of each canonical identity do not depend on the order in which
/// the records are processed: any rearrangement of the same records gives the
/// same commits, added lines and deleted lines, and the same set of
/// contributors.
pub proof fn lemma_totals_order_independent(
    e1: Seq<Event>,
    e2: Seq<Event>,
    m: Map<Seq<char>, Seq<char>>,
    c: Seq<char>,
)
    requires
        e1.to_multiset() == e2.to_multiset(),
    ensures
        commits_in(e1, m, c) == commits_in(e2, m, c),
        added_in(e1, m, c) == added_in(e2, m, c),
        deleted_in(e1, m, c) == deleted_in(e2, m, c),
        is_contributor(e1, m, c) == is_contributor(e2, m, c),
        all_lines(e1) == all_lines(e2),
{
    broadcast use vstd::seq_lib::group_to_multiset_ensures;

    lemma_sum_permutation(e1, e2, commit_share(m, c));
    lemma_sum_permutation(e1, e2, added_share(m, c));
    lemma_sum_permutation(e1, e2, deleted_share(m, c));
    lemma_sum_permutation(e1, e2, every_line());
    if is_contributor(e1, m, c) {
        let i = choose|i: int| 0 <= i < e1.len() && credited(#[trigger] e1[i], m, c);
        assert(e1.contains(e1[i]));
        vstd::seq_lib::to_multiset_contains(e1, e1[i]);
        vstd::seq_lib::to_multiset_contains(e2, e1[i]);
        let j = choose|j: int| 0 <= j < e2.len() && e2[j] == e1[i];
        assert(credited(e2[j], m, c));
    }
    if is_contributor(e2, m, c) {
        let i = choose|i: int| 0 <= i < e2.len() && credited(#[trigger] e2[i], m, c);
        assert(e2.contains(e2[i]));
        vstd::seq_lib::to_multiset_contains(e2, e2[i]);
        vstd::seq_lib::to_multiset_contains(e1, e2[i]);
        let j = choose|j: int| 0 <= j < e1.len() && e1[j] == e2[i];
        assert(credited(e1[j], m, c));
    }
}

/// Aggregating the same records in any two orders gives the same table.
pub proof fn lemma_tables_order_independent(
    t1: Seq<(Seq<char>, ContributorStats)>,
    t2: Seq<(Seq<char>, ContributorStats)>,
    e1: Seq<Event>,
    e2: Seq<Event>,
    m: Map<Seq<char>, Seq<char>>,
)
    requires
        is_table(t1),
        is_table(t2),
        tallied(t1, e1, m),
        tallied(t2, e2, m),
        e1.to_multiset() == e2.to_multiset(),
    ensures
        t1 == t2,
{
    assert forall|q: Seq<char>| has_name(t1, q) == has_name(t2, q) by {
        lemma_totals_order_independent(e1, e2, m, q);
    }
    assert forall|q: Seq<char>| commits_of(t1, q) == commits_of(t2, q) by {
        lemma_totals_order_independent(e1, e2, m, q);
    }
    assert forall|q: Seq<char>| added_of(t1, q) == added_of(t2, q) by {
        lemma_totals_order_independent(e1, e2, m, q);
    }
    assert forall|q: Seq<char>| deleted_of(t1, q) == deleted_of(t2, q) by {
        lemma_totals_order_independent(e1, e2, m, q);
    }
    lemma_table_extensional(t1, t2);
}

/// The events with each author replaced by its canonical identity.
pub open spec fn renamed(events: Seq<Event>, m: Map<Seq<char>, Seq<char>>) -> Seq<Event> {
    Seq::new(
        events.len(),
        |i: int|
            Event {
                author: resolved(m, events[i].author),
                date: events[i].date,
                kind: events[i].kind,
            },
    )
}

/// Merging by alias is the same as renaming: the totals of `c` under the
/// mapping `m` are the totals that `c` has, under no mapping at all, once
/// every record carries the canonical identity of its author from the start.
pub proof fn lemma_merging_is_renaming(
    events: Seq<Event>,
    m: Map<Seq<char>, Seq<char>>,
    c: Seq<char>,
)
    ensures
        commits_in(events, m, c) == commits_in(renamed(events, m), Map::empty(), c),
        added_in(events, m, c) == added_in(renamed(events, m), Map::empty(), c),
        deleted_in(events, m, c) == deleted_in(renamed(events, m), Map::empty(), c),
        is_contributor(events, m, c) == is_contributor(renamed(events, m), Map::empty(), c),
    decreases events.len(),
{
    let none = Map::<Seq<char>, Seq<char>>::empty();
    let r = renamed(events, m);
    if events.len() > 0 {
        lemma_merging_is_renaming(events.drop_last(), m, c);
        assert(r.drop_last() =~= renamed(events.drop_last(), m));
        assert(credited(r.last(), none, c) == credited(events.last(), m, c));
    }
    if is_contributor(events, m, c) {
        let i = choose|i: int| 0 <= i < events.len() && credited(#[trigger] events[i], m, c);
        assert(credited(r[i], none, c));
    }
    if is_contributor(r, none, c) {
        let i = choose|i: int| 0 <= i < r.len() && credited(#[trigger] r[i], none, c);
        assert(credited(events[i], m, c));
    }
}

/// Whether `c` is a contributor of the first `i + 1` events.
proof fn lemma_contributor_step(
    events: Seq<Event>,
    i: int,
    m: Map<Seq<char>, Seq<char>>,
    c: Seq<char>,
)
    requires
        0 <= i < events.len(),
    ensures
        is_contributor(events.take(i + 1), m, c) == (is_contributor(events.take(i), m, c)
            || credited(events[i], m, c)),
{
    let a = events.take(i);
    let b = events.take(i + 1);
    if is_contributor(a, m, c) {
        let j = choose|j: int| 0 <= j < a.len() && credited(#[trigger] a[j], m, c);
        assert(b[j] == a[j]);
    }
    if credited(events[i], m, c) {
        assert(b[i] == events[i]);
    }
    if is_contributor(b, m, c) {
        let j = choose|j: int| 0 <= j < b.len() && credited(#[trigger] b[j], m, c);
        if j < i {
            assert(a[j] == b[j]);
        }
    }
}

/// Folds the records into per-contributor totals, crediting each record to
/// the canonical identity of its author. Each commit record counts one
/// commit; each lines record adds its added and deleted lines.
///
/// Returns `None` exactly where the lines of all records together do not fit
/// in a `u64`.
pub fn aggregate(records: &[RawRecord], aliases: &AliasMap) -> (r: Option<StatsTable>)
    requires
        aliases.wf(),
    ensures
        r is Some == (all_lines(events_of(records@)) <= u64::MAX),
        r is Some ==> r->0.wf() && tallied(r->0@, events_of(records@), aliases@),
        r is Some ==> total_added(r->0@) + total_deleted(r->0@) == all_lines(events_of(records@)),
{
    let ghost ev = events_of(records@);
    let ghost m = aliases@;
    let mut table = StatsTable::new();
    let mut i: usize = 0;
    proof {
        assert forall|c: Seq<char>| !is_contributor(ev.take(0), m, c) by {}
        assert forall|c: Seq<char>| !has_name(table@, c) by {}
        assert(commit_counts(table@).len() == 0);
        assert(added_counts(table@).len() == 0);
        assert(deleted_counts(table@).len() == 0);
    }
    while i < records.len()
        invariant
            ev == events_of(records@),
            m == aliases@,
            aliases.wf(),
            i <= records@.len(),
            table.wf(),
            total_commits(table@) <= i,
            total_added(table@) + total_deleted(table@) == all_lines(ev.take(i as int)),
            tallied(table@, ev.take(i as int), m),
        decreases records@.len() - i,
    {
        let ghost before = table@;
        let ghost e = ev[i as int];
        proof {
            lemma_sum_step(ev, i as int, every_line());
            assert forall|c: Seq<char>|
                is_contributor(ev.take(i + 1), m, c) == (is_contributor(ev.take(i as int), m, c)
                    || credited(e, m, c)) by {
                lemma_contributor_step(ev, i as int, m, c);
            }
            assert forall|c: Seq<char>|
                commits_in(ev.take(i + 1), m, c) == commits_in(ev.take(i as int), m, c)
                    + commit_share(m, c)(e) by {
                lemma_sum_step(ev, i as int, commit_share(m, c));
            }
            assert forall|c: Seq<char>|
                added_in(ev.take(i + 1), m, c) == added_in(ev.take(i as int), m, c) + added_share(
                    m,
                    c,
                )(e) by {
                lemma_sum_step(ev, i as int, added_share(m, c));
            }
            assert forall|c: Seq<char>|
                deleted_in(ev.take(i + 1), m, c) == deleted_in(ev.take(i as int), m, c)
                    + deleted_share(m, c)(e) by {
                lemma_sum_step(ev, i as int, deleted_share(m, c));
            }
        }
        let record = &records[i];
        let canonical = aliases.resolve(record.author.as_str());
        let ok = match record.kind {
            RecordKind::Commit => table.record(canonical, 1, 0, 0),
            RecordKind::Lines { added, deleted } => table.record(canonical, 0, added, deleted),
        };
        if !ok {
            return None;
        }
        proof {
            let after = table@;
            assert forall|c: Seq<char>| #[trigger]
                has_name(after, c) == is_contributor(ev.take(i + 1), m, c) by {
                assert(has_name(before, c) == is_contributor(ev.take(i as int), m, c));
            }
            assert forall|c: Seq<char>| #[trigger]
                commits_of(after, c) == commits_in(ev.take(i + 1), m, c) by {
                assert(commits_of(before, c) == commits_in(ev.take(i as int), m, c));
            }
            assert forall|c: Seq<char>| #[trigger]
                added_of(after, c) == added_in(ev.take(i + 1), m, c) by {
                assert(added_of(before, c) == added_in(ev.take(i as int), m, c));
            }
            assert forall|c: Seq<char>| #[trigger]
                deleted_of(after, c) == deleted_in(ev.take(i + 1), m, c) by {
                assert(deleted_of(before, c) == deleted_in(ev.take(i as int), m, c));
            }
        }
        i += 1;
    }
    assert(ev.take(i as int) =~= ev);
    Some(table)
}

/// Some event satisfies `p`.
pub open spec fn any_by(events: Seq<Event>, p: spec_fn(Event) -> bool) -> bool {
    exists|i: int| 0 <= i < events.len() && p(#[trigger] events[i])
}

proof fn lemma_any_step(events: Seq<Event>, i: int, p: spec_fn(Event) -> bool)
    requires
        0 <= i < events.len(),
    ensures
        any_by(events.take(i + 1), p) == (any_by(events.take(i), p) || p(events[i])),
{
    let a = events.take(i);
    let b = events.take(i + 1);
    if any_by(a, p) {
        let j = choose|j: int| 0 <= j < a.len() && p(#[trigger] a[j]);
        assert(b[j] == a[j]);
    }
    if p(events[i]) {
        assert(b[i] == events[i]);
    }
    if any_by(b, p) {
        let j = choose|j: int| 0 <= j < b.len() && p(#[trigger] b[j]);
        if j < i {
            assert(a[j] == b[j]);
        }
    }
}

/// The event belongs to the scope: to the canonical identity that `scope`
/// names, or, for the team-wide scope `None`, to anyone.
pub open spec fn in_scope(
    e: Event,
    m: Map<Seq<char>, Seq<char>>,
    scope: Option<Seq<char>>,
) -> bool {
    match scope {
        Some(c) => credited(e, m, c),
        None => true,
    }
}

/// The test for a commit of the scope on date `d`.
pub open spec fn commit_on(
    m: Map<Seq<char>, Seq<char>>,
    scope: Option<Seq<char>>,
    d: Seq<char>,
) -> spec_fn(Event) -> bool {
    |e: Event| in_scope(e, m, scope) && e.date == d && e.kind is Commit
}

/// The test for a lines record of the scope on date `d`.
pub open spec fn lines_on(
    m: Map<Seq<char>, Seq<char>>,
    scope: Option<Seq<char>>,
    d: Seq<char>,
) -> spec_fn(Event) -> bool {
    |e: Event| in_scope(e, m, scope) && e.date == d && e.kind is Lines
}

/// What an event adds to the commits of the scope on date `d`.
pub open spec fn commit_day_share(
    m: Map<Seq<char>, Seq<char>>,
    scope: Option<Seq<char>>,
    d: Seq<char>,
) -> spec_fn(Event) -> nat {
    |e: Event|
        if in_scope(e, m, scope) && e.date == d {
            commit_weight(e)
        } else {
            0
        }
}

/// What an event adds to the lines changed of the scope on date `d`.
pub open spec fn line_day_share(
    m: Map<Seq<char>, Seq<char>>,
    scope: Option<Seq<char>>,
    d: Seq<char>,
) -> spec_fn(Event) -> nat {
    |e: Event|
        if in_scope(e, m, scope) && e.date == d {
            added_weight(e) + deleted_weight(e)
        } else {
            0
        }
}

/// What an event adds to the lines changed of the scope on all dates.
pub open spec fn scope_line_share(
    m: Map<Seq<char>, Seq<char>>,
    scope: Option<Seq<char>>,
) -> spec_fn(Event) -> nat {
    |e: Event|
        if in_scope(e, m, scope) {
            added_weight(e) + deleted_weight(e)
        } else {
            0
        }
}

/// The number of commits of the scope on date `d`.
pub open spec fn commits_on_date(
    events: Seq<Event>,
    m: Map<Seq<char>, Seq<char>>,
    scope: Option<Seq<char>>,
    d: Seq<char>,
) -> nat {
    sum_by(events, commit_day_share(m, scope, d))
}

/// The lines changed, added and deleted together, by the scope on date `d`.
pub open spec fn lines_on_date(
    events: Seq<Event>,
    m: Map<Seq<char>, Seq<char>>,
    scope: Option<Seq<char>>,
    d: Seq<char>,
) -> nat {
    sum_by(events, line_day_share(m, scope, d))
}

/// The lines changed by the scope on all dates together.
pub open spec fn lines_in_scope(
    events: Seq<Event>,
    m: Map<Seq<char>, Seq<char>>,
    scope: Option<Seq<char>>,
) -> nat {
    sum_by(events, scope_line_share(m, scope))
}

/// The commits on date `d` of the contributors `names`, one after another,
/// added up.
pub open spec fn commits_of_all(
    events: Seq<Event>,
    m: Map<Seq<char>, Seq<char>>,
    names: Seq<Seq<char>>,
    d: Seq<char>,
) -> nat
    decreases names.len(),
{
    if names.len() == 0 {
        0
    } else {
        commits_of_all(events, m, names.drop_last(), d) + commits_on_date(
            events,
            m,
            Some(names.last()),
            d,
        )
    }
}

/// The lines changed on date `d` by the contributors `names`, one after
/// another, added up.
pub open spec fn lines_of_all(
    events: Seq<Event>,
    m: Map<Seq<char>, Seq<char>>,
    names: Seq<Seq<char>>,
    d: Seq<char>,
) -> nat
    decreases names.len(),
{
    if names.len() == 0 {
        0
    } else {
        lines_of_all(events, m, names.drop_last(), d) + lines_on_date(
            events,
            m,
            Some(names.last()),
            d,
        )
    }
}

/// What the last event adds to the sums over a list of contributors: its own
/// weight where its author resolves to one of them, and nothing otherwise.
proof fn lemma_all_step(
    events: Seq<Event>,
    m: Map<Seq<char>, Seq<char>>,
    names: Seq<Seq<char>>,
    d: Seq<char>,
)
    requires
        events.len() > 0,
        names.no_duplicates(),
    ensures
        commits_of_all(events, m, names, d) == commits_of_all(events.drop_last(), m, names, d)
            + if names.contains(resolved(m, events.last().author)) {
            commit_day_share(m, None, d)(events.last())
        } else {
            0
        },
        lines_of_all(events, m, names, d) == lines_of_all(events.drop_last(), m, names, d)
            + if names.contains(resolved(m, events.last().author)) {
            line_day_share(m, None, d)(events.last())
        } else {
            0
        },
    decreases names.len(),
{
    let e = events.last();
    let who = resolved(m, e.author);
    if names.len() > 0 {
        let rest = names.drop_last();
        let last = names.last();
        assert(rest.no_duplicates()) by {
            assert forall|i: int, j: int|
                0 <= i < rest.len() && 0 <= j < rest.len() && i != j implies rest[i]
                != rest[j] by {
                assert(names[i] != names[j]);
            }
        }
        lemma_all_step(events, m, rest, d);
        if rest.contains(who) {
            let j = choose|j: int| 0 <= j < rest.len() && rest[j] == who;
            assert(names[j] == who);
            assert(names[names.len() - 1] == last);
            assert(last != who);
        }
        if names.contains(who) && !rest.contains(who) {
            let j = choose|j: int| 0 <= j < names.len() && names[j] == who;
            if j < rest.len() {
                assert(rest[j] == who);
            }
            assert(last == who);
        }
        if last == who {
            assert(names[names.len() - 1] == who);
        }
    }
}

/// The series of the team is the sum of the series of its contributors.
/// Where `names` lists every canonical identity that a record is credited
/// to, each once, the commits of the team on a date are those of the listed
/// contributors together, and so are the lines changed.
pub proof fn lemma_team_is_sum_of_contributors(
    events: Seq<Event>,
    m: Map<Seq<char>, Seq<char>>,
    names: Seq<Seq<char>>,
    d: Seq<char>,
)
    requires
        names.no_duplicates(),
        forall|i: int|
            0 <= i < events.len() ==> names.contains(resolved(m, (#[trigger] events[i]).author)),
    ensures
        commits_on_date(events, m, None, d) == commits_of_all(events, m, names, d),
        lines_on_date(events, m, None, d) == lines_of_all(events, m, names, d),
    decreases events.len(),
{
    if events.len() == 0 {
        assert(events =~= Seq::empty());
        lemma_all_of_nothing(m, names, d);
    } else {
        let rest = events.drop_last();
        assert forall|i: int| 0 <= i < rest.len() implies names.contains(
            resolved(m, (#[trigger] rest[i]).author),
        ) by {
            assert(rest[i] == events[i]);
        }
        lemma_team_is_sum_of_contributors(rest, m, names, d);
        lemma_all_step(events, m, names, d);
        assert(events[events.len() - 1] == events.last());
    }
}

proof fn lemma_all_of_nothing(m: Map<Seq<char>, Seq<char>>, names: Seq<Seq<char>>, d: Seq<char>)
    ensures
        commits_of_all(Seq::empty(), m, names, d) == 0,
        lines_of_all(Seq::empty(), m, names, d) == 0,
    decreases names.len(),
{
    if names.len() > 0 {
        lemma_all_of_nothing(m, names.drop_last(), d);
    }
}

/// The scope that an optional contributor name stands for.
pub open spec fn scope_of(contributor: Option<&str>) -> Option<Seq<char>> {
    match contributor {
        Some(c) => Some(c@),
        None => None,
    }
}

/// Whether the record belongs to the scope.
fn record_in_scope(record: &RawRecord, aliases: &AliasMap, contributor: Option<&str>) -> (b: bool)
    requires
        aliases.wf(),
    ensures
        b == in_scope(record@, aliases@, scope_of(contributor)),
{
    match contributor {
        Some(c) => str_same(aliases.resolve(record.author.as_str()), c),
        None => true,
    }
}

/// The commits per date of one canonical identity, or of the whole team
/// where `contributor` is `None`. A record counts for an identity where
/// its author resolves to it, so the series of an identity holds what was
/// contributed under any of its aliases. A date has an entry where the scope
/// has a commit on it.
pub fn commit_series(records: &[RawRecord], aliases: &AliasMap, contributor: Option<&str>) -> (r:
    DateSeries)
    requires
        aliases.wf(),
    ensures
        r.wf(),
        forall|d: Seq<char>| #[trigger]
            has_key(r@, d) == any_by(
                events_of(records@),
                commit_on(aliases@, scope_of(contributor), d),
            ),
        forall|d: Seq<char>| #[trigger]
            count_at(r@, d) == commits_on_date(
                events_of(records@),
                aliases@,
                scope_of(contributor),
                d,
            ),
{
    let ghost ev = events_of(records@);
    let ghost m = aliases@;
    let ghost scope = scope_of(contributor);
    let mut series = DateSeries::new();
    let mut i: usize = 0;
    proof {
        assert forall|d: Seq<char>| !has_key(series@, d) by {}
    }
    while i < records.len()
        invariant
            ev == events_of(records@),
            m == aliases@,
            scope == scope_of(contributor),
            aliases.wf(),
            i <= records@.len(),
            series.wf(),
            total(series@) <= i,
            forall|d: Seq<char>| #[trigger]
                has_key(series@, d) == any_by(ev.take(i as int), commit_on(m, scope, d)),
            forall|d: Seq<char>| #[trigger]
                count_at(series@, d) == commits_on_date(ev.take(i as int), m, scope, d),
        decreases records@.len() - i,
    {
        let ghost before = series@;
        let ghost e = ev[i as int];
        proof {
            assert forall|d: Seq<char>|
                any_by(ev.take(i + 1), commit_on(m, scope, d)) == (any_by(
                    ev.take(i as int),
                    commit_on(m, scope, d),
                ) || commit_on(m, scope, d)(e)) by {
                lemma_any_step(ev, i as int, commit_on(m, scope, d));
            }
            assert forall|d: Seq<char>|
                commits_on_date(ev.take(i + 1), m, scope, d) == commits_on_date(
                    ev.take(i as int),
                    m,
                    scope,
                    d,
                ) + commit_day_share(m, scope, d)(e) by {
                lemma_sum_step(ev, i as int, commit_day_share(m, scope, d));
            }
        }
        let record = &records[i];
        let counts = match record.kind {
            RecordKind::Commit => record_in_scope(record, aliases, contributor),
            RecordKind::Lines { .. } => false,
        };
        if counts {
            let added = series.add(record.date.as_str(), 1);
            assert(added);
        }
        proof {
            let after = series@;
            assert forall|d: Seq<char>| #[trigger]
                has_key(after, d) == any_by(ev.take(i + 1), commit_on(m, scope, d)) by {
                assert(has_key(before, d) == any_by(ev.take(i as int), commit_on(m, scope, d)));
            }
            assert forall|d: Seq<char>| #[trigger]
                count_at(after, d) == commits_on_date(ev.take(i + 1), m, scope, d) by {
                assert(count_at(before, d) == commits_on_date(ev.take(i as int), m, scope, d));
            }
        }
        i += 1;
    }
    assert(ev.take(i as int) =~= ev);
    series
}

/// The lines changed per date, added and deleted together, of one canonical
/// identity, or of the whole team where `contributor` is `None`. A date has
/// an entry where the scope has a lines record on it, even one of no lines.
///
/// Returns `None` exactly where the lines of the scope do not fit in a `u64`.
pub fn line_series(records: &[RawRecord], aliases: &AliasMap, contributor: Option<&str>) -> (r:
    Option<DateSeries>)
    requires
        aliases.wf(),
    ensures
        r is Some == (lines_in_scope(events_of(records@), aliases@, scope_of(contributor))
            <= u64::MAX),
        r is Some ==> r->0.wf(),
        r is Some ==> total(r->0@) == lines_in_scope(
            events_of(records@),
            aliases@,
            scope_of(contributor),
        ),
        r is Some ==> forall|d: Seq<char>| #[trigger]
            has_key(r->0@, d) == any_by(
                events_of(records@),
                lines_on(aliases@, scope_of(contributor), d),
            ),
        r is Some ==> forall|d: Seq<char>| #[trigger]
            count_at(r->0@, d) == lines_on_date(
                events_of(records@),
                aliases@,
                scope_of(contributor),
                d,
            ),
{
    let ghost ev = events_of(records@);
    let ghost m = aliases@;
    let ghost scope = scope_of(contributor);
    let mut series = DateSeries::new();
    let mut i: usize = 0;
    proof {
        assert forall|d: Seq<char>| !has_key(series@, d) by {}
    }
    while i < records.len()
        invariant
            ev == events_of(records@),
            m == aliases@,
            scope == scope_of(contributor),
            aliases.wf(),
            i <= records@.len(),
            series.wf(),
            total(series@) == lines_in_scope(ev.take(i as int), m, scope),
            forall|d: Seq<char>| #[trigger]
                has_key(series@, d) == any_by(ev.take(i as int), lines_on(m, scope, d)),
            forall|d: Seq<char>| #[trigger]
                count_at(series@, d) == lines_on_date(ev.take(i as int), m, scope, d),
        decreases records@.len() - i,
    {
        let ghost before = series@;
        let ghost e = ev[i as int];
        proof {
            lemma_sum_step(ev, i as int, scope_line_share(m, scope));
            assert forall|d: Seq<char>|
                any_by(ev.take(i + 1), lines_on(m, scope, d)) == (any_by(
                    ev.take(i as int),
                    lines_on(m, scope, d),
                ) || lines_on(m, scope, d)(e)) by {
                lemma_any_step(ev, i as int, lines_on(m, scope, d));
            }
            assert forall|d: Seq<char>|
                lines_on_date(ev.take(i + 1), m, scope, d) == lines_on_date(
                    ev.take(i as int),
                    m,
                    scope,
                    d,
                ) + line_day_share(m, scope, d)(e) by {
                lemma_sum_step(ev, i as int, line_day_share(m, scope, d));
            }
        }
        let record = &records[i];
        match record.kind {
            RecordKind::Lines { added, deleted } => {
                if record_in_scope(record, aliases, contributor) {
                    if deleted > u64::MAX - added {
                        return None;
                    }
                    if !series.add(record.date.as_str(), added + deleted) {
                        return None;
                    }
                }
            },
            RecordKind::Commit => {},
        }
        proof {
            let after = series@;
            assert forall|d: Seq<char>| #[trigger]
                has_key(after, d) == any_by(ev.take(i + 1), lines_on(m, scope, d)) by {
                assert(has_key(before, d) == any_by(ev.take(i as int), lines_on(m, scope, d)));
            }
            assert forall|d: Seq<char>| #[trigger]
                count_at(after, d) == lines_on_date(ev.take(i + 1), m, scope, d) by {
                assert(count_at(before, d) == lines_on_date(ev.take(i as int), m, scope, d));
            }
        }
        i += 1;
    }
    assert(ev.take(i as int) =~= ev);
    Some(series)
}

} // verus!
