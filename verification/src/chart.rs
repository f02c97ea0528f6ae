//! The data that the interactive chart is drawn from: the identities whose
//! history makes up a contributor, the colour of each contributor, and series
//! and contributors written as JSON.
//!
//! Names and dates are written as they are, without escaping.

use vstd::prelude::*;
use crate::render::{decimal_of, push_decimal};
use crate::series::DateSeries;
use crate::stats::ContributorStats;

verus! {

/// The number of colours of the palette.
pub const PALETTE_SIZE: usize = 6;

/// The colour of the contributor at position `index` of the ranking: the
/// palette is gone through in order and started again after its last colour.
pub open spec fn palette_color(index: nat) -> Seq<char> {
    if index % 6 == 0 {
        "#58a6ff"@
    } else if index % 6 == 1 {
        "#3fb950"@
    } else if index % 6 == 2 {
        "#f0883e"@
    } else if index % 6 == 3 {
        "#a371f7"@
    } else if index % 6 == 4 {
        "#f85149"@
    } else {
        "#8b949e"@
    }
}

/// The colour of the contributor at position `index` of the ranking.
pub fn color_for(index: usize) -> (color: &'static str)
    ensures
        color@ == palette_color(index as nat),
{
    let k = index % PALETTE_SIZE;
    if k == 0 {
        "#58a6ff"
    } else if k == 1 {
        "#3fb950"
    } else if k == 2 {
        "#f0883e"
    } else if k == 3 {
        "#a371f7"
    } else if k == 4 {
        "#f85149"
    } else {
        "#8b949e"
    }
}

/// One entry of a series as a JSON object.
pub open spec fn json_point(e: (Seq<char>, u64)) -> Seq<char> {
    "{\"date\":\""@ + e.0 + "\",\"count\":"@ + decimal_of(e.1 as nat) + "}"@
}

/// The entries of a series as JSON objects, in order, with a comma between
/// each two.
pub open spec fn json_points(s: Seq<(Seq<char>, u64)>) -> Seq<char>
    decreases s.len(),
{
    if s.len() == 0 {
        Seq::empty()
    } else if s.len() == 1 {
        json_point(s[0])
    } else {
        json_points(s.drop_last()) + ","@ + json_point(s.last())
    }
}

/// Appends the entries of a series as JSON objects.
pub fn push_series_json(out: &mut String, series: &DateSeries)
    ensures
        final(out)@ == old(out)@ + json_points(series@),
{
    let ghost s = series@;
    let mut i: usize = 0;
    assert(json_points(s.take(0)) =~= Seq::<char>::empty());
    while i < series.len()
        invariant
            s == series@,
            i <= s.len(),
            out@ == old(out)@ + json_points(s.take(i as int)),
        decreases s.len() - i,
    {
        let ghost before = out@;
        if i > 0 {
            out.append(",");
        }
        out.append("{\"date\":\"");
        out.append(series.key_at(i).as_str());
        out.append("\",\"count\":");
        push_decimal(out, series.value_at(i));
        out.append("}");
        proof {
            assert(s.take(i + 1).drop_last() =~= s.take(i as int));
            assert(s.take(i + 1).last() == s[i as int]);
            if i == 0 {
                assert(s.take(1)[0] == s[0]);
                assert(out@ =~= before + json_point(s[0]));
            } else {
                assert(out@ =~= before + ","@ + json_point(s[i as int]));
            }
            assert(out@ =~= old(out)@ + json_points(s.take(i + 1)));
        }
        i += 1;
    }
    assert(s.take(i as int) =~= s);
}

/// The entries of a series as JSON objects, with a comma between each two.
pub fn series_json(series: &DateSeries) -> (out: String)
    ensures
        out@ == json_points(series@),
{
    let mut out = String::new();
    push_series_json(&mut out, series);
    assert(out@ =~= json_points(series@));
    out
}

/// One contributor as a JSON object: name, totals, colour, and the two
/// series of commits and of lines changed per date.
pub open spec fn json_contributor(
    name: Seq<char>,
    stats: ContributorStats,
    color: Seq<char>,
    commits: Seq<(Seq<char>, u64)>,
    lines: Seq<(Seq<char>, u64)>,
) -> Seq<char> {
    "{\n                    \"name\": \""@ + name + "\",\n                    \"commits\": "@
        + decimal_of(stats.commits as nat) + ",\n                    \"added\": "@ + decimal_of(
        stats.lines_added as nat,
    ) + ",\n                    \"deleted\": "@ + decimal_of(stats.lines_deleted as nat)
        + ",\n                    \"color\": \""@ + color
        + "\",\n                    \"weeklyCommits\": ["@ + json_points(commits)
        + "],\n                    \"weeklyLines\": ["@ + json_points(lines)
        + "]\n                }"@
}

/// One contributor as a JSON object.
pub fn contributor_json(
    name: &str,
    stats: ContributorStats,
    color: &str,
    commits: &DateSeries,
    lines: &DateSeries,
) -> (out: String)
    ensures
        out@ == json_contributor(name@, stats, color@, commits@, lines@),
{
    let mut out = String::new();
    out.append("{\n                    \"name\": \"");
    out.append(name);
    out.append("\",\n                    \"commits\": ");
    push_decimal(&mut out, stats.commits);
    out.append(",\n                    \"added\": ");
    push_decimal(&mut out, stats.lines_added);
    out.append(",\n                    \"deleted\": ");
    push_decimal(&mut out, stats.lines_deleted);
    out.append(",\n                    \"color\": \"");
    out.append(color);
    out.append("\",\n                    \"weeklyCommits\": [");
    push_series_json(&mut out, commits);
    out.append("],\n                    \"weeklyLines\": [");
    push_series_json(&mut out, lines);
    out.append("]\n                }");
    assert(out@ =~= json_contributor(name@, stats, color@, commits@, lines@));
    out
}

} // verus!
