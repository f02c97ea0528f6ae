//! Reading the text that the history reader hands over: author lists, commit
//! lists, line statistics and dated line statistics.
//!
//! Reading is forgiving. A line that does not have the expected shape adds
//! nothing, and reading goes on with the next line.

use vstd::prelude::*;
use crate::aggregate::{
    RawRecord, RecordKind, Event, events_of, any_by, commits_in, commits_on_date, commit_on,
    lines_on_date, lines_on,
};
use crate::alias::resolved;
use crate::alias::views;
use crate::date::{is_date_marker, is_date_marker_chars};
use crate::lines::{
    lines_of, line_views, split_lines, fields_of, trimmed, trim, parse_decimal, parse_field,
    first_two_fields,
};
use crate::series::{DateSeries, total, count_at, has_key, keys_of};
use crate::text::{precedes, string_of, to_chars};

verus! {

/// The number of lines that are not empty.
pub open spec fn count_nonempty(lines: Seq<Seq<char>>) -> nat
    decreases lines.len(),
{
    if lines.len() == 0 {
        0
    } else {
        count_nonempty(lines.drop_last()) + if lines.last().len() > 0 {
            1nat
        } else {
            0
        }
    }
}

/// The number of lines that read `q`.
pub open spec fn occurrences(lines: Seq<Seq<char>>, q: Seq<char>) -> nat
    decreases lines.len(),
{
    if lines.len() == 0 {
        0
    } else {
        occurrences(lines.drop_last(), q) + if lines.last() == q {
            1nat
        } else {
            0
        }
    }
}

/// The names are in strictly ascending order, so none occurs twice.
pub open spec fn strictly_ascending(names: Seq<Seq<char>>) -> bool {
    forall|i: int, j: int|
        #![trigger names[i], names[j]]
        0 <= i < j < names.len() ==> precedes(names[i], names[j])
}

/// What one more line adds to the counts over the lines before it.
proof fn lemma_line_step(lines: Seq<Seq<char>>, i: int)
    requires
        0 <= i < lines.len(),
    ensures
        count_nonempty(lines.take(i + 1)) == count_nonempty(lines.take(i)) + if lines[i].len()
            > 0 {
            1nat
        } else {
            0
        },
        forall|q: Seq<char>| #[trigger]
            occurrences(lines.take(i + 1), q) == occurrences(lines.take(i), q) + if lines[i] == q {
                1nat
            } else {
                0
            },
        forall|q: Seq<char>| #[trigger]
            lines.take(i + 1).contains(q) == (lines.take(i).contains(q) || lines[i] == q),
{
    let a = lines.take(i);
    let b = lines.take(i + 1);
    assert(b.drop_last() =~= a);
    assert(b.last() == lines[i]);
    assert forall|q: Seq<char>| #[trigger] b.contains(q) == (a.contains(q) || lines[i] == q) by {
        if a.contains(q) {
            let j = choose|j: int| 0 <= j < a.len() && a[j] == q;
            assert(b[j] == q);
        }
        if lines[i] == q {
            assert(b[i] == q);
        }
        if b.contains(q) {
            let j = choose|j: int| 0 <= j < b.len() && b[j] == q;
            if j < i {
                assert(a[j] == q);
            }
        }
    }
}

/// The name of a branch as the history reader prints it: the text without
/// the white space around it.
pub fn parse_branch(text: &str) -> (name: String)
    ensures
        name@ == trimmed(text@),
{
    let chars = to_chars(text);
    let name = trim(chars.as_slice());
    let r = string_of(name.as_slice(), 0, name.len());
    assert(r@ =~= name@);
    r
}

/// The number of commits in a commit list: one per line that is not empty.
pub fn count_commits(text: &str) -> (n: u64)
    ensures
        n == count_nonempty(lines_of(text@)),
{
    let lines = split_lines(text);
    let ghost ls = line_views(lines@);
    let mut n: u64 = 0;
    let mut i: usize = 0;
    while i < lines.len()
        invariant
            ls == line_views(lines@),
            i <= lines@.len(),
            n == count_nonempty(ls.take(i as int)),
            n <= i,
        decreases lines@.len() - i,
    {
        proof {
            lemma_line_step(ls, i as int);
        }
        if lines[i].len() > 0 {
            n = n + 1;
        }
        i += 1;
    }
    assert(ls.take(i as int) =~= ls);
    n
}

/// The commits per date of a list that holds one date per commit: each line
/// that is not empty is a key, counted as often as it occurs. No line is
/// asked to look like a date.
pub fn commits_by_date(text: &str) -> (r: DateSeries)
    ensures
        r.wf(),
        total(r@) == count_nonempty(lines_of(text@)),
        forall|q: Seq<char>| #[trigger]
            has_key(r@, q) == (q.len() > 0 && lines_of(text@).contains(q)),
        forall|q: Seq<char>| #[trigger]
            count_at(r@, q) == if q.len() > 0 {
                occurrences(lines_of(text@), q)
            } else {
                0
            },
{
    let lines = split_lines(text);
    let ghost ls = line_views(lines@);
    let mut series = DateSeries::new();
    let mut i: usize = 0;
    proof {
        assert forall|q: Seq<char>| !has_key(series@, q) by {}
    }
    while i < lines.len()
        invariant
            ls == line_views(lines@),
            i <= lines@.len(),
            series.wf(),
            total(series@) == count_nonempty(ls.take(i as int)),
            total(series@) <= i,
            forall|q: Seq<char>| #[trigger]
                has_key(series@, q) == (q.len() > 0 && ls.take(i as int).contains(q)),
            forall|q: Seq<char>| #[trigger]
                count_at(series@, q) == if q.len() > 0 {
                    occurrences(ls.take(i as int), q)
                } else {
                    0
                },
        decreases lines@.len() - i,
    {
        let ghost before = series@;
        proof {
            lemma_line_step(ls, i as int);
        }
        if lines[i].len() > 0 {
            let key = string_of(lines[i].as_slice(), 0, lines[i].len());
            assert(key@ =~= ls[i as int]);
            let added = series.add(key.as_str(), 1);
            assert(added);
        }
        proof {
            let after = series@;
            assert forall|q: Seq<char>| #[trigger]
                has_key(after, q) == (q.len() > 0 && ls.take(i + 1).contains(q)) by {
                assert(has_key(before, q) == (q.len() > 0 && ls.take(i as int).contains(q)));
            }
            assert forall|q: Seq<char>| #[trigger]
                count_at(after, q) == if q.len() > 0 {
                    occurrences(ls.take(i + 1), q)
                } else {
                    0
                } by {
                assert(count_at(before, q) == if q.len() > 0 {
                    occurrences(ls.take(i as int), q)
                } else {
                    0
                });
            }
        }
        i += 1;
    }
    assert(ls.take(i as int) =~= ls);
    series
}

/// The authors of an author list: its lines that are not empty, each once,
/// in ascending order.
pub fn parse_authors(text: &str) -> (authors: Vec<String>)
    ensures
        strictly_ascending(views(authors@)),
        forall|q: Seq<char>|
            views(authors@).contains(q) == (q.len() > 0 && lines_of(text@).contains(q)),
{
    let series = commits_by_date(text);
    let mut authors: Vec<String> = Vec::new();
    let mut i: usize = 0;
    while i < series.len()
        invariant
            i <= series@.len(),
            authors@.len() == i,
            forall|j: int| 0 <= j < i ==> (#[trigger] authors@[j])@ == series@[j].0,
        decreases series@.len() - i,
    {
        authors.push(series.key_at(i).clone());
        i += 1;
    }
    proof {
        let names = views(authors@);
        assert(names =~= keys_of(series@));
        assert forall|a: int, b: int| 0 <= a < b < names.len() implies precedes(
            #[trigger] names[a],
            #[trigger] names[b],
        ) by {
            assert(precedes(series@[a].0, series@[b].0));
        }
        assert forall|q: Seq<char>|
            names.contains(q) == (q.len() > 0 && lines_of(text@).contains(q)) by {
            if names.contains(q) {
                let j = choose|j: int| 0 <= j < names.len() && names[j] == q;
                assert(series@[j].0 == q);
                assert(has_key(series@, q));
            }
            if has_key(series@, q) {
                let j = choose|j: int| 0 <= j < series@.len() && (#[trigger] series@[j]).0 == q;
                assert(names[j] == q);
            }
        }
    }
    authors
}

/// The lines added and deleted that a line of line statistics states: the
/// line has at least two fields and its first two fields are both numbers.
/// Any other line states nothing.
pub open spec fn stat_of(line: Seq<char>) -> Option<(u64, u64)> {
    if fields_of(line).len() < 2 {
        None
    } else {
        match (parse_decimal(fields_of(line)[0]), parse_decimal(fields_of(line)[1])) {
            (Some(a), Some(d)) => Some((a, d)),
            _ => None,
        }
    }
}

/// The lines added that the lines state together.
pub open spec fn added_sum(lines: Seq<Seq<char>>) -> nat
    decreases lines.len(),
{
    if lines.len() == 0 {
        0
    } else {
        added_sum(lines.drop_last()) + match stat_of(lines.last()) {
            Some((a, _)) => a as nat,
            None => 0,
        }
    }
}

/// The lines deleted that the lines state together.
pub open spec fn deleted_sum(lines: Seq<Seq<char>>) -> nat
    decreases lines.len(),
{
    if lines.len() == 0 {
        0
    } else {
        deleted_sum(lines.drop_last()) + match stat_of(lines.last()) {
            Some((_, d)) => d as nat,
            None => 0,
        }
    }
}

proof fn lemma_sums_prefix(lines: Seq<Seq<char>>, j: int)
    requires
        0 <= j <= lines.len(),
    ensures
        added_sum(lines.take(j)) <= added_sum(lines),
        deleted_sum(lines.take(j)) <= deleted_sum(lines),
    decreases lines.len() - j,
{
    if j < lines.len() {
        lemma_sums_prefix(lines, j + 1);
        assert(lines.take(j + 1).drop_last() =~= lines.take(j));
    } else {
        assert(lines.take(j) =~= lines);
    }
}

/// Tells what a line of line statistics states.
pub fn read_stat(line: &[char]) -> (r: Option<(u64, u64)>)
    ensures
        r == stat_of(line@),
{
    match first_two_fields(line) {
        Some((a0, b0, a1, b1)) => {
            match (parse_field(line, a0, b0), parse_field(line, a1, b1)) {
                (Some(a), Some(d)) => Some((a, d)),
                _ => None,
            }
        },
        None => None,
    }
}

/// The lines added and deleted in line statistics without dates: the sums
/// over the lines that state both. A line that does not adds nothing, to
/// either sum.
///
/// Returns `None` exactly where one of the two sums does not fit in a `u64`.
pub fn sum_line_stats(text: &str) -> (r: Option<(u64, u64)>)
    ensures
        r is Some == (added_sum(lines_of(text@)) <= u64::MAX && deleted_sum(lines_of(text@))
            <= u64::MAX),
        match r {
            Some((added, deleted)) => added == added_sum(lines_of(text@)) && deleted
                == deleted_sum(lines_of(text@)),
            None => true,
        },
{
    let lines = split_lines(text);
    let ghost ls = line_views(lines@);
    let mut added: u64 = 0;
    let mut deleted: u64 = 0;
    let mut i: usize = 0;
    while i < lines.len()
        invariant
            ls == line_views(lines@),
            ls == lines_of(text@),
            i <= lines@.len(),
            added == added_sum(ls.take(i as int)),
            deleted == deleted_sum(ls.take(i as int)),
        decreases lines@.len() - i,
    {
        proof {
            assert(ls.take(i + 1).drop_last() =~= ls.take(i as int));
            assert(ls.take(i + 1).last() == ls[i as int]);
            lemma_sums_prefix(ls, i + 1);
        }
        match read_stat(lines[i].as_slice()) {
            Some((a, d)) => {
                if a > u64::MAX - added || d > u64::MAX - deleted {
                    return None;
                }
                added = added + a;
                deleted = deleted + d;
            },
            None => {},
        }
        i += 1;
    }
    assert(ls.take(i as int) =~= ls);
    Some((added, deleted))
}

/// The date that a line sets for the lines after it, where the line, once
/// trimmed, is a date marker.
pub open spec fn marker_of(line: Seq<char>) -> Option<Seq<char>> {
    if is_date_marker(trimmed(line)) {
        Some(trimmed(line))
    } else {
        None
    }
}

/// The lines added and deleted that a line of dated line statistics states:
/// the line, once trimmed, is not empty and no date marker, and states both
/// as a line of line statistics does.
pub open spec fn change_of(line: Seq<char>) -> Option<(u64, u64)> {
    if trimmed(line).len() == 0 || is_date_marker(trimmed(line)) {
        None
    } else {
        stat_of(trimmed(line))
    }
}

/// The date in force after the lines: that of the last date marker among
/// them, if there is one.
pub open spec fn current_date(lines: Seq<Seq<char>>) -> Option<Seq<char>>
    decreases lines.len(),
{
    if lines.len() == 0 {
        None
    } else {
        match marker_of(lines.last()) {
            Some(d) => Some(d),
            None => current_date(lines.drop_last()),
        }
    }
}

/// What line `i` contributes: the date in force before it, with the lines
/// added and deleted that it states. A line that states a change before any
/// date marker contributes nothing.
pub open spec fn dated_change(lines: Seq<Seq<char>>, i: int) -> Option<(Seq<char>, u64, u64)> {
    match (current_date(lines.take(i)), change_of(lines[i])) {
        (Some(date), Some((a, d))) => Some((date, a, d)),
        _ => None,
    }
}

/// The lines changed, added and deleted together, that the first `n` lines
/// contribute under date `q`.
pub open spec fn day_lines(lines: Seq<Seq<char>>, n: int, q: Seq<char>) -> nat
    decreases n,
{
    if n <= 0 {
        0
    } else {
        day_lines(lines, n - 1, q) + match dated_change(lines, n - 1) {
            Some((date, a, d)) => if date == q {
                (a + d) as nat
            } else {
                0
            },
            None => 0,
        }
    }
}

/// The lines changed that the first `n` lines contribute under all dates.
pub open spec fn dated_lines(lines: Seq<Seq<char>>, n: int) -> nat
    decreases n,
{
    if n <= 0 {
        0
    } else {
        dated_lines(lines, n - 1) + match dated_change(lines, n - 1) {
            Some((date, a, d)) => (a + d) as nat,
            None => 0,
        }
    }
}

/// Line `i` contributes under date `q`.
pub open spec fn contributes(lines: Seq<Seq<char>>, i: int, q: Seq<char>) -> bool {
    match dated_change(lines, i) {
        Some((date, _, _)) => date == q,
        None => false,
    }
}

/// One of the first `n` lines contributes under date `q`.
pub open spec fn day_seen(lines: Seq<Seq<char>>, n: int, q: Seq<char>) -> bool {
    exists|i: int| 0 <= i < n && #[trigger] contributes(lines, i, q)
}

proof fn lemma_dated_prefix(lines: Seq<Seq<char>>, j: int)
    requires
        0 <= j <= lines.len(),
    ensures
        dated_lines(lines, j) <= dated_lines(lines, lines.len() as int),
    decreases lines.len() - j,
{
    if j < lines.len() {
        lemma_dated_prefix(lines, j + 1);
    }
}

/// What a line of dated line statistics is.
#[derive(Clone, Debug, PartialEq, Eq)]
pub enum LineShape {
    /// A date marker.
    Marker(String),
    /// A statement of lines added and deleted.
    Change(u64, u64),
    /// Anything else: the line is passed over.
    Other,
}

/// Tells what a line of dated line statistics is.
pub fn read_line(line: &[char]) -> (shape: LineShape)
    ensures
        match shape {
            LineShape::Marker(date) => marker_of(line@) == Some(date@),
            LineShape::Change(a, d) => marker_of(line@) is None && change_of(line@) == Some((a, d)),
            LineShape::Other => marker_of(line@) is None && change_of(line@) is None,
        },
{
    let t = trim(line);
    if t.len() == 0 {
        return LineShape::Other;
    }
    if is_date_marker_chars(t.as_slice()) {
        let date = string_of(t.as_slice(), 0, t.len());
        assert(date@ =~= t@);
        return LineShape::Marker(date);
    }
    match read_stat(t.as_slice()) {
        Some((a, d)) => LineShape::Change(a, d),
        None => LineShape::Other,
    }
}

/// The lines changed per date in dated line statistics: date markers, each
/// followed by the lines that state what was added and deleted on that date.
/// A date has an entry where a line states a change under it, even a change
/// of no lines; a change stated before the first date marker is dropped.
///
/// Returns `None` exactly where the lines changed, all dates together, do
/// not fit in a `u64`.
pub fn lines_by_date(text: &str) -> (r: Option<DateSeries>)
    ensures
        r is Some == (dated_lines(lines_of(text@), lines_of(text@).len() as int) <= u64::MAX),
        r is Some ==> r->0.wf(),
        r is Some ==> total(r->0@) == dated_lines(lines_of(text@), lines_of(text@).len() as int),
        r is Some ==> forall|q: Seq<char>| #[trigger]
            has_key(r->0@, q) == day_seen(lines_of(text@), lines_of(text@).len() as int, q),
        r is Some ==> forall|q: Seq<char>| #[trigger]
            count_at(r->0@, q) == day_lines(lines_of(text@), lines_of(text@).len() as int, q),
{
    let lines = split_lines(text);
    let ghost ls = line_views(lines@);
    let mut series = DateSeries::new();
    let mut current: Option<String> = None;
    let mut i: usize = 0;
    proof {
        assert forall|q: Seq<char>| !has_key(series@, q) by {}
        assert(ls.take(0) =~= Seq::<Seq<char>>::empty());
    }
    while i < lines.len()
        invariant
            ls == line_views(lines@),
            ls == lines_of(text@),
            i <= lines@.len(),
            series.wf(),
            match current {
                Some(date) => current_date(ls.take(i as int)) == Some(date@),
                None => current_date(ls.take(i as int)) is None,
            },
            total(series@) == dated_lines(ls, i as int),
            forall|q: Seq<char>| #[trigger] has_key(series@, q) == day_seen(ls, i as int, q),
            forall|q: Seq<char>| #[trigger] count_at(series@, q) == day_lines(ls, i as int, q),
        decreases lines@.len() - i,
    {
        let ghost before = series@;
        proof {
            assert(ls.take(i + 1).drop_last() =~= ls.take(i as int));
            assert(ls.take(i + 1).last() == ls[i as int]);
            lemma_dated_prefix(ls, i + 1);
            assert forall|q: Seq<char>|
                day_seen(ls, i + 1, q) == (day_seen(ls, i as int, q) || contributes(
                    ls,
                    i as int,
                    q,
                )) by {
                if day_seen(ls, i + 1, q) {
                    let j = choose|j: int| 0 <= j < i + 1 && #[trigger] contributes(ls, j, q);
                    if j < i {
                        assert(day_seen(ls, i as int, q));
                    }
                }
                if day_seen(ls, i as int, q) {
                    let j = choose|j: int| 0 <= j < i && #[trigger] contributes(ls, j, q);
                    assert(0 <= j < i + 1);
                }
            }
        }
        match read_line(lines[i].as_slice()) {
            LineShape::Marker(date) => {
                current = Some(date);
            },
            LineShape::Change(a, d) => {
                match &current {
                    Some(date) => {
                        if d > u64::MAX - a {
                            return None;
                        }
                        if !series.add(date.as_str(), a + d) {
                            return None;
                        }
                    },
                    None => {},
                }
            },
            LineShape::Other => {},
        }
        proof {
            let after = series@;
            assert forall|q: Seq<char>| #[trigger] has_key(after, q) == day_seen(ls, i + 1, q) by {
                assert(has_key(before, q) == day_seen(ls, i as int, q));
            }
            assert forall|q: Seq<char>| #[trigger] count_at(after, q) == day_lines(
                ls,
                i + 1,
                q,
            ) by {
                assert(count_at(before, q) == day_lines(ls, i as int, q));
            }
        }
        i += 1;
    }
    Some(series)
}

/// The events of a list that holds one date per commit: a commit event for
/// each line that is not empty, dated by the line, in the order of the lines.
pub open spec fn commit_events(author: Seq<char>, lines: Seq<Seq<char>>) -> Seq<Event>
    decreases lines.len(),
{
    if lines.len() == 0 {
        Seq::empty()
    } else if lines.last().len() > 0 {
        commit_events(author, lines.drop_last()).push(
            Event { author, date: lines.last(), kind: RecordKind::Commit },
        )
    } else {
        commit_events(author, lines.drop_last())
    }
}

/// The events of the first `n` lines of dated line statistics: a lines event
/// for each line that contributes, under the date in force, in the order of
/// the lines.
pub open spec fn numstat_events(author: Seq<char>, lines: Seq<Seq<char>>, n: int) -> Seq<Event>
    decreases n,
{
    if n <= 0 {
        Seq::empty()
    } else {
        match dated_change(lines, n - 1) {
            Some((date, added, deleted)) => numstat_events(author, lines, n - 1).push(
                Event { author, date, kind: RecordKind::Lines { added, deleted } },
            ),
            None => numstat_events(author, lines, n - 1),
        }
    }
}

/// Reading a commit list into records and aggregating them counts what the
/// direct readers count: the commits credited to the canonical identity of
/// the author are the lines that are not empty, and the commits of the team
/// on a date are the lines that read that date.
pub proof fn lemma_commit_records_agree(
    author: Seq<char>,
    lines: Seq<Seq<char>>,
    m: Map<Seq<char>, Seq<char>>,
    q: Seq<char>,
)
    ensures
        commits_in(commit_events(author, lines), m, resolved(m, author)) == count_nonempty(lines),
        commits_on_date(commit_events(author, lines), m, None, q) == if q.len() > 0 {
            occurrences(lines, q)
        } else {
            0
        },
        any_by(commit_events(author, lines), commit_on(m, None, q)) == (q.len() > 0
            && lines.contains(q)),
    decreases lines.len(),
{
    let ev = commit_events(author, lines);
    if lines.len() > 0 {
        let rest = lines.drop_last();
        let before = commit_events(author, rest);
        lemma_commit_records_agree(author, rest, m, q);
        if lines.last().len() > 0 {
            assert(ev.drop_last() =~= before);
        }
        if any_by(ev, commit_on(m, None, q)) {
            let i = choose|i: int| 0 <= i < ev.len() && commit_on(m, None, q)(#[trigger] ev[i]);
            if i < before.len() {
                assert(commit_on(m, None, q)(before[i]));
                assert(any_by(before, commit_on(m, None, q)));
                let j = choose|j: int| 0 <= j < rest.len() && rest[j] == q;
                assert(lines[j] == q);
            } else {
                assert(lines[lines.len() - 1] == q);
            }
        }
        if q.len() > 0 && lines.contains(q) {
            let j = choose|j: int| 0 <= j < lines.len() && lines[j] == q;
            if j < rest.len() {
                assert(rest[j] == q);
                assert(rest.contains(q));
                let i = choose|i: int|
                    0 <= i < before.len() && commit_on(m, None, q)(#[trigger] before[i]);
                assert(ev[i] == before[i]);
            } else {
                assert(commit_on(m, None, q)(ev[ev.len() - 1]));
            }
        }
    }
}

/// Reading dated line statistics into records and aggregating them sums what
/// the direct reader sums: the lines changed by the team on a date are the
/// lines that the text contributes under that date.
pub proof fn lemma_numstat_records_agree(
    author: Seq<char>,
    lines: Seq<Seq<char>>,
    n: int,
    m: Map<Seq<char>, Seq<char>>,
    q: Seq<char>,
)
    requires
        0 <= n <= lines.len(),
    ensures
        lines_on_date(numstat_events(author, lines, n), m, None, q) == day_lines(lines, n, q),
        any_by(numstat_events(author, lines, n), lines_on(m, None, q)) == day_seen(lines, n, q),
    decreases n,
{
    let ev = numstat_events(author, lines, n);
    if n > 0 {
        let before = numstat_events(author, lines, n - 1);
        lemma_numstat_records_agree(author, lines, n - 1, m, q);
        if dated_change(lines, n - 1) is Some {
            assert(ev.drop_last() =~= before);
        }
        if any_by(ev, lines_on(m, None, q)) {
            let i = choose|i: int| 0 <= i < ev.len() && lines_on(m, None, q)(#[trigger] ev[i]);
            if i < before.len() {
                assert(lines_on(m, None, q)(before[i]));
                assert(any_by(before, lines_on(m, None, q)));
                let j = choose|j: int| 0 <= j < n - 1 && #[trigger] contributes(lines, j, q);
                assert(0 <= j < n);
            } else {
                assert(contributes(lines, n - 1, q));
            }
        }
        if day_seen(lines, n, q) {
            let j = choose|j: int| 0 <= j < n && #[trigger] contributes(lines, j, q);
            if j < n - 1 {
                assert(day_seen(lines, n - 1, q));
                let i = choose|i: int|
                    0 <= i < before.len() && lines_on(m, None, q)(#[trigger] before[i]);
                assert(ev[i] == before[i]);
            } else {
                assert(lines_on(m, None, q)(ev[ev.len() - 1]));
            }
        }
    }
}

/// The commit records of one author, from a list that holds one date per
/// commit.
pub fn commit_records(author: &str, text: &str) -> (records: Vec<RawRecord>)
    ensures
        events_of(records@) == commit_events(author@, lines_of(text@)),
{
    let lines = split_lines(text);
    let ghost ls = line_views(lines@);
    let mut records: Vec<RawRecord> = Vec::new();
    let mut i: usize = 0;
    assert(events_of(records@) =~= commit_events(author@, ls.take(0)));
    while i < lines.len()
        invariant
            ls == line_views(lines@),
            i <= lines@.len(),
            events_of(records@) == commit_events(author@, ls.take(i as int)),
        decreases lines@.len() - i,
    {
        let ghost before = events_of(records@);
        proof {
            assert(ls.take(i + 1).drop_last() =~= ls.take(i as int));
            assert(ls.take(i + 1).last() == ls[i as int]);
        }
        if lines[i].len() > 0 {
            let date = string_of(lines[i].as_slice(), 0, lines[i].len());
            assert(date@ =~= ls[i as int]);
            let record = RawRecord { author: author.to_owned(), date, kind: RecordKind::Commit };
            records.push(record);
            assert(events_of(records@) =~= before.push(record@));
        }
        i += 1;
    }
    assert(ls.take(i as int) =~= ls);
    records
}

/// The lines records of one author, from dated line statistics.
pub fn numstat_records(author: &str, text: &str) -> (records: Vec<RawRecord>)
    ensures
        events_of(records@) == numstat_events(
            author@,
            lines_of(text@),
            lines_of(text@).len() as int,
        ),
{
    let lines = split_lines(text);
    let ghost ls = line_views(lines@);
    let mut records: Vec<RawRecord> = Vec::new();
    let mut current: Option<String> = None;
    let mut i: usize = 0;
    proof {
        assert(events_of(records@) =~= numstat_events(author@, ls, 0));
        assert(ls.take(0) =~= Seq::<Seq<char>>::empty());
    }
    while i < lines.len()
        invariant
            ls == line_views(lines@),
            i <= lines@.len(),
            match current {
                Some(date) => current_date(ls.take(i as int)) == Some(date@),
                None => current_date(ls.take(i as int)) is None,
            },
            events_of(records@) == numstat_events(author@, ls, i as int),
        decreases lines@.len() - i,
    {
        let ghost before = events_of(records@);
        proof {
            assert(ls.take(i + 1).drop_last() =~= ls.take(i as int));
            assert(ls.take(i + 1).last() == ls[i as int]);
        }
        match read_line(lines[i].as_slice()) {
            LineShape::Marker(date) => {
                current = Some(date);
            },
            LineShape::Change(added, deleted) => {
                match &current {
                    Some(date) => {
                        let record = RawRecord {
                            author: author.to_owned(),
                            date: date.clone(),
                            kind: RecordKind::Lines { added, deleted },
                        };
                        records.push(record);
                        assert(events_of(records@) =~= before.push(record@));
                    },
                    None => {},
                }
            },
            LineShape::Other => {},
        }
        i += 1;
    }
    records
}

} // verus!
