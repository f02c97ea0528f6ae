//! Presentation as text: the graph of a series and the ranking table.

use vstd::prelude::*;
use vstd::utf8::encode_utf8;
use crate::alias::views;
use crate::rank::RankedReport;
use crate::series::{DateSeries, total, lemma_total_concat};
use crate::stats::{ContributorStats, total_commits, total_added, total_deleted};
use crate::text::{digit_char, digit_to_char};

verus! {

/// The decimal numeral of `n`, without leading zeros.
pub open spec fn decimal_of(n: nat) -> Seq<char>
    decreases n,
{
    if n < 10 {
        seq![digit_char(n)]
    } else {
        decimal_of(n / 10).push(digit_char(n % 10))
    }
}

/// `n` copies of the character `c`.
pub open spec fn repeated(c: char, n: nat) -> Seq<char> {
    Seq::new(n, |i: int| c)
}

/// `s` followed by as many `fill` as bring it to `width` characters; `s`
/// itself where it is that long already.
pub open spec fn padded_right(s: Seq<char>, width: nat, fill: char) -> Seq<char> {
    if s.len() >= width {
        s
    } else {
        s + repeated(fill, (width - s.len()) as nat)
    }
}

/// `s` preceded by as many `fill` as bring it to `width` characters; `s`
/// itself where it is that long already.
pub open spec fn padded_left(s: Seq<char>, width: nat, fill: char) -> Seq<char> {
    if s.len() >= width {
        s
    } else {
        repeated(fill, (width - s.len()) as nat) + s
    }
}

/// Appends the decimal numeral of `n`.
pub fn push_decimal(s: &mut String, n: u64)
    ensures
        final(s)@ == old(s)@ + decimal_of(n as nat),
    decreases n,
{
    if n >= 10 {
        push_decimal(s, n / 10);
    }
    s.push(digit_to_char((n % 10) as u8));
    assert(s@ =~= old(s)@ + decimal_of(n as nat));
}

/// The decimal numeral of `n`.
pub fn decimal(n: u64) -> (s: String)
    ensures
        s@ == decimal_of(n as nat),
{
    let mut s = String::new();
    push_decimal(&mut s, n);
    assert(s@ =~= decimal_of(n as nat));
    s
}

/// Appends `n` copies of `c`.
pub fn push_repeated(s: &mut String, c: char, n: usize)
    ensures
        final(s)@ == old(s)@ + repeated(c, n as nat),
{
    let mut i: usize = 0;
    while i < n
        invariant
            i <= n,
            s@ == old(s)@ + repeated(c, i as nat),
        decreases n - i,
    {
        s.push(c);
        i += 1;
        assert(s@ =~= old(s)@ + repeated(c, i as nat));
    }
}

/// Appends `text`, then fills with `fill` up to `width` characters.
pub fn push_padded_right(s: &mut String, text: &str, width: usize, fill: char)
    ensures
        final(s)@ == old(s)@ + padded_right(text@, width as nat, fill),
{
    let len = text.unicode_len();
    s.append(text);
    if len < width {
        push_repeated(s, fill, width - len);
    }
    assert(s@ =~= old(s)@ + padded_right(text@, width as nat, fill));
}

/// Fills with `fill` so that `text`, appended after, ends at `width`
/// characters.
pub fn push_padded_left(s: &mut String, text: &str, width: usize, fill: char)
    ensures
        final(s)@ == old(s)@ + padded_left(text@, width as nat, fill),
{
    let len = text.unicode_len();
    if len < width {
        push_repeated(s, fill, width - len);
    }
    s.append(text);
    assert(s@ =~= old(s)@ + padded_left(text@, width as nat, fill));
}

/// The number of rows of a text graph.
pub const GRAPH_HEIGHT: u64 = 8;

/// The largest number of columns of a text graph.
pub const GRAPH_WIDTH: usize = 60;

/// How many successive entries share one column of the graph of a series
/// with `n` entries: one, unless the series has more entries than the graph
/// has columns.
pub open spec fn chunk_len(n: nat) -> nat {
    if n > 60 {
        (n + 59) / 60
    } else {
        1
    }
}

/// The columns of the graph from entry `start` on, `c` entries to a column:
/// each column holds the sum of its entries.
pub open spec fn columns_from(s: Seq<(Seq<char>, u64)>, c: nat, start: int) -> Seq<nat>
    decreases s.len() - start,
    when c > 0 && start >= 0
{
    if start >= s.len() {
        Seq::empty()
    } else if start + c >= s.len() {
        seq![total(s.subrange(start, s.len() as int))]
    } else {
        seq![total(s.subrange(start, start + c))] + columns_from(s, c, start + c)
    }
}

/// The columns of the graph of a series.
pub open spec fn columns(s: Seq<(Seq<char>, u64)>) -> Seq<nat> {
    columns_from(s, chunk_len(s.len()), 0)
}

/// The largest of the values; 0 where there is none.
pub open spec fn peak(v: Seq<nat>) -> nat
    decreases v.len(),
{
    if v.len() == 0 {
        0
    } else if v.last() > peak(v.drop_last()) {
        v.last()
    } else {
        peak(v.drop_last())
    }
}

/// Whether a column of the given value is filled at row `row`, counting rows
/// from the bottom: the value exceeds `row / 8` of the peak.
pub open spec fn cell_filled(value: nat, row: nat, top: nat) -> bool {
    value * 8 > row * top
}

/// The cells of one row of the graph: a full block where the column is
/// filled, a blank where it is not.
pub open spec fn row_cells(v: Seq<nat>, row: nat) -> Seq<char> {
    Seq::new(
        v.len(),
        |j: int|
            if cell_filled(v[j], row, peak(v)) {
                '\u{2588}'
            } else {
                ' '
            },
    )
}

/// One row of the graph with its label: the peak beside the top row, 0
/// beside the bottom row.
pub open spec fn graph_row(v: Seq<nat>, row: nat) -> Seq<char> {
    if row == 7 {
        row_cells(v, row) + seq![' '] + decimal_of(peak(v))
    } else if row == 0 {
        row_cells(v, row) + seq![' ', '0']
    } else {
        row_cells(v, row)
    }
}

/// The values as natural numbers.
pub open spec fn nats(v: Seq<u64>) -> Seq<nat> {
    Seq::new(v.len(), |i: int| v[i] as nat)
}

/// The entries `s[a..b]` never sum to more than the whole series.
proof fn lemma_total_part(s: Seq<(Seq<char>, u64)>, a: int, b: int)
    requires
        0 <= a <= b <= s.len(),
    ensures
        total(s.subrange(a, b)) <= total(s),
{
    assert(s =~= s.take(a) + s.subrange(a, b) + s.skip(b));
    lemma_total_concat(s.take(a) + s.subrange(a, b), s.skip(b));
    lemma_total_concat(s.take(a), s.subrange(a, b));
}

/// The columns of the graph of a series.
pub fn graph_columns(data: &DateSeries) -> (v: Vec<u64>)
    requires
        data.wf(),
    ensures
        nats(v@) == columns(data@),
        v@.len() <= data@.len(),
        data@.len() > 0 ==> v@.len() > 0,
{
    let n = data.len();
    let chunk: usize = if n > GRAPH_WIDTH {
        n / GRAPH_WIDTH + if n % GRAPH_WIDTH != 0 {
            1
        } else {
            0
        }
    } else {
        1
    };
    let ghost s = data@;
    let ghost c = chunk_len(s.len());
    assert(chunk == c);
    let mut v: Vec<u64> = Vec::new();
    let mut start: usize = 0;
    while start < n
        invariant
            s == data@,
            data.wf(),
            n == s.len(),
            chunk == c,
            c > 0,
            start <= n,
            v@.len() <= start,
            start > 0 ==> v@.len() > 0,
            columns(s) == nats(v@) + columns_from(s, c, start as int),
        decreases n - start,
    {
        let end: usize = if chunk >= n - start {
            n
        } else {
            start + chunk
        };
        let mut sum: u64 = 0;
        let mut k: usize = start;
        while k < end
            invariant
                s == data@,
                data.wf(),
                start <= k <= end <= s.len(),
                sum == total(s.subrange(start as int, k as int)),
            decreases end - k,
        {
            proof {
                assert(s.subrange(start as int, k + 1).drop_last() =~= s.subrange(
                    start as int,
                    k as int,
                ));
                lemma_total_part(s, start as int, k + 1);
            }
            sum = sum + data.value_at(k);
            k += 1;
        }
        proof {
            assert(nats(v@.push(sum)) =~= nats(v@) + seq![sum as nat]);
            if end == n {
                assert(columns_from(s, c, end as int) =~= Seq::<nat>::empty());
            }
        }
        v.push(sum);
        start = end;
    }
    v
}

/// The largest of the values; 0 where there is none.
pub fn largest(v: &Vec<u64>) -> (m: u64)
    ensures
        m == peak(nats(v@)),
{
    let mut m: u64 = 0;
    let mut i: usize = 0;
    while i < v.len()
        invariant
            i <= v@.len(),
            m == peak(nats(v@).take(i as int)),
        decreases v@.len() - i,
    {
        proof {
            assert(nats(v@).take(i + 1).drop_last() =~= nats(v@).take(i as int));
        }
        if v[i] > m {
            m = v[i];
        }
        i += 1;
    }
    assert(nats(v@).take(i as int) =~= nats(v@));
    m
}

/// One row of the graph with its label.
pub fn render_row(v: &Vec<u64>, row: u64) -> (line: String)
    requires
        row < GRAPH_HEIGHT,
    ensures
        line@ == graph_row(nats(v@), row as nat),
{
    let top = largest(v);
    let mut line = String::new();
    let mut j: usize = 0;
    while j < v.len()
        invariant
            j <= v@.len(),
            row < 8,
            top == peak(nats(v@)),
            line@ == row_cells(nats(v@), row as nat).take(j as int),
        decreases v@.len() - j,
    {
        assert(row * top <= 7 * 0xffff_ffff_ffff_ffff) by (nonlinear_arith)
            requires
                row <= 7,
                top <= 0xffff_ffff_ffff_ffff,
        ;
        let filled = (v[j] as u128) * 8 > (row as u128) * (top as u128);
        assert(filled == cell_filled(nats(v@)[j as int], row as nat, top as nat));
        if filled {
            line.push('\u{2588}');
        } else {
            line.push(' ');
        }
        j += 1;
        assert(line@ =~= row_cells(nats(v@), row as nat).take(j as int));
    }
    assert(row_cells(nats(v@), row as nat).take(j as int) =~= row_cells(nats(v@), row as nat));
    if row == 7 {
        line.push(' ');
        push_decimal(&mut line, top);
    } else if row == 0 {
        line.push(' ');
        line.push('0');
    }
    assert(line@ =~= graph_row(nats(v@), row as nat));
    line
}

/// The length of `s` in bytes of UTF-8, as `str::len` gives it in a `usize`.
pub open spec fn byte_len(s: Seq<char>) -> nat {
    (encode_utf8(s).len() as usize) as nat
}

/// What stands after the title of a graph without data.
pub open spec fn no_data_label() -> Seq<char> {
    seq![':', ' ', 'N', 'o', ' ', 'd', 'a', 't', 'a']
}

/// The line under the graph: the first date at the left, padded so that the
/// last date ends near the right edge of a graph of `ncols` columns. The pad
/// is `ncols` less the length of the last date in bytes, and none where that
/// is negative.
pub open spec fn date_axis(s: Seq<(Seq<char>, u64)>, ncols: nat) -> Seq<char>
    recommends
        s.len() > 0,
{
    let last_len = byte_len(s.last().0);
    padded_right(
        s.first().0,
        if ncols >= last_len {
            (ncols - last_len) as nat
        } else {
            0
        },
        ' ',
    ) + s.last().0
}

/// The lines of the text graph of a series. A series without entries gives
/// the title with the words "No data"; any other gives the title, a rule as
/// long as the title has bytes, eight rows from the top down, and the date
/// axis. A blank line ends both.
pub open spec fn graph_lines(title: Seq<char>, s: Seq<(Seq<char>, u64)>) -> Seq<Seq<char>> {
    if s.len() == 0 {
        seq![title + no_data_label(), Seq::empty()]
    } else {
        seq![
            title,
            repeated('\u{2500}', byte_len(title)),
            graph_row(columns(s), 7),
            graph_row(columns(s), 6),
            graph_row(columns(s), 5),
            graph_row(columns(s), 4),
            graph_row(columns(s), 3),
            graph_row(columns(s), 2),
            graph_row(columns(s), 1),
            graph_row(columns(s), 0),
            date_axis(s, columns(s).len()),
            Seq::empty(),
        ]
    }
}

/// The text graph of a series, line by line.
pub fn render_time_graph(title: &str, data: &DateSeries) -> (lines: Vec<String>)
    requires
        data.wf(),
    ensures
        views(lines@) == graph_lines(title@, data@),
{
    let mut lines: Vec<String> = Vec::new();
    if data.is_empty() {
        let mut head = title.to_owned();
        head.append(": No data");
        proof {
            reveal_strlit(": No data");
            assert(": No data"@ =~= no_data_label());
        }
        lines.push(head);
        lines.push(String::new());
        assert(views(lines@) =~= graph_lines(title@, data@));
        return lines;
    }
    let values = graph_columns(data);
    lines.push(title.to_owned());
    let mut rule = String::new();
    push_repeated(&mut rule, '\u{2500}', title.len());
    assert(rule@ =~= repeated('\u{2500}', byte_len(title@)));
    lines.push(rule);
    let mut row: u64 = GRAPH_HEIGHT;
    while row > 0
        invariant
            row <= 8,
            lines@.len() == 2 + (8 - row),
            lines@[0]@ == title@,
            lines@[1]@ == repeated('\u{2500}', byte_len(title@)),
            forall|k: int|
                0 <= k < 8 - row ==> (#[trigger] lines@[2 + k])@ == graph_row(
                    nats(values@),
                    (7 - k) as nat,
                ),
        decreases row,
    {
        row -= 1;
        let line = render_row(&values, row);
        lines.push(line);
    }
    let first = data.key_at(0);
    let last = data.key_at(data.len() - 1);
    let pad = if values.len() >= last.as_str().len() {
        values.len() - last.as_str().len()
    } else {
        0
    };
    let mut axis = String::new();
    push_padded_right(&mut axis, first.as_str(), pad, ' ');
    axis.append(last.as_str());
    assert(axis@ =~= date_axis(data@, columns(data@).len()));
    lines.push(axis);
    lines.push(String::new());
    proof {
        let got = views(lines@);
        let want = graph_lines(title@, data@);
        assert(got.len() == want.len());
        assert forall|k: int| 0 <= k < got.len() implies got[k] == want[k] by {
            if 2 <= k < 10 {
                assert(lines@[2 + (k - 2)]@ == graph_row(nats(values@), (7 - (k - 2)) as nat));
            }
        }
        assert(got =~= want);
    }
    lines
}

/// The least width of the name column of the table.
pub const NAME_WIDTH_FLOOR: usize = 12;

/// The width of the name column: the length in bytes of the longest name
/// among the first `n` rows, and at least 12.
pub open spec fn name_width(rows: Seq<(Seq<char>, ContributorStats)>, n: int) -> nat
    decreases n,
{
    if n <= 0 {
        12
    } else if byte_len(rows[n - 1].0) > name_width(rows, n - 1) {
        byte_len(rows[n - 1].0)
    } else {
        name_width(rows, n - 1)
    }
}

/// One line of the table: the name cell flush left in the name column, then
/// four cells flush right in columns 8, 15, 17 and 6 wide.
pub open spec fn table_line(
    width: nat,
    name: Seq<char>,
    commits: Seq<char>,
    added: Seq<char>,
    deleted: Seq<char>,
    share: Seq<char>,
) -> Seq<char> {
    "| "@ + padded_right(name, width, ' ') + " | "@ + padded_left(commits, 8, ' ') + " | "@
        + padded_left(added, 15, ' ') + " | "@ + padded_left(deleted, 17, ' ') + " | "@
        + padded_left(share, 6, ' ') + " |"@
}

/// The rule between the parts of the table.
pub open spec fn table_rule(width: nat) -> Seq<char> {
    "|"@ + repeated('-', width + 2) + "|"@ + repeated('-', 10) + "|"@ + repeated('-', 17) + "|"@
        + repeated('-', 19) + "|"@ + repeated('-', 8) + "|"@
}

/// The line of the table that names the columns.
pub open spec fn table_header(width: nat) -> Seq<char> {
    table_line(
        width,
        "Contributeur"@,
        "Commits"@,
        "Lignes ajoutees"@,
        "Lignes supprimees"@,
        "%"@,
    )
}

/// The line of the table for one contributor; `share` is the text of its
/// share cell.
pub open spec fn table_row(width: nat, row: (Seq<char>, ContributorStats), share: Seq<char>) -> Seq<
    char,
> {
    table_line(
        width,
        row.0,
        decimal_of(row.1.commits as nat),
        decimal_of(row.1.lines_added as nat),
        decimal_of(row.1.lines_deleted as nat),
        share,
    )
}

/// The line of the table that holds the column totals.
pub open spec fn table_total(width: nat, rows: Seq<(Seq<char>, ContributorStats)>) -> Seq<char> {
    table_line(
        width,
        "TOTAL"@,
        decimal_of(total_commits(rows)),
        decimal_of(total_added(rows)),
        decimal_of(total_deleted(rows)),
        "100%"@,
    )
}

/// The share cell of row `i`: the text handed over for it, or nothing where
/// none was.
pub open spec fn share_text(shares: Seq<String>, i: int) -> Seq<char> {
    if 0 <= i < shares.len() {
        shares[i]@
    } else {
        Seq::empty()
    }
}

/// The lines of the table: header, rule, one line per row in ranking order,
/// rule, totals.
pub open spec fn table_lines(rows: Seq<(Seq<char>, ContributorStats)>, shares: Seq<String>) -> Seq<
    Seq<char>,
> {
    let width = name_width(rows, rows.len() as int);
    seq![table_header(width), table_rule(width)] + Seq::new(
        rows.len(),
        |i: int| table_row(width, rows[i], share_text(shares, i)),
    ) + seq![table_rule(width), table_total(width, rows)]
}

/// The width of the name column of a report.
pub fn name_column_width(report: &RankedReport) -> (w: usize)
    ensures
        w == name_width(report@, report@.len() as int),
{
    let mut w: usize = NAME_WIDTH_FLOOR;
    let mut i: usize = 0;
    while i < report.len()
        invariant
            i <= report@.len(),
            w == name_width(report@, i as int),
        decreases report@.len() - i,
    {
        let len = report.row(i).name.as_str().len();
        if len > w {
            w = len;
        }
        i += 1;
    }
    w
}

/// One line of the table.
pub fn render_table_line(
    width: usize,
    name: &str,
    commits: &str,
    added: &str,
    deleted: &str,
    share: &str,
) -> (line: String)
    ensures
        line@ == table_line(width as nat, name@, commits@, added@, deleted@, share@),
{
    let mut line = String::new();
    line.append("| ");
    push_padded_right(&mut line, name, width, ' ');
    line.append(" | ");
    push_padded_left(&mut line, commits, 8, ' ');
    line.append(" | ");
    push_padded_left(&mut line, added, 15, ' ');
    line.append(" | ");
    push_padded_left(&mut line, deleted, 17, ' ');
    line.append(" | ");
    push_padded_left(&mut line, share, 6, ' ');
    line.append(" |");
    assert(line@ =~= table_line(width as nat, name@, commits@, added@, deleted@, share@));
    line
}

/// The rule between the parts of the table.
pub fn render_table_rule(width: usize) -> (line: String)
    ensures
        line@ == table_rule(width as nat),
{
    let mut line = String::new();
    line.append("|");
    push_repeated(&mut line, '-', width);
    push_repeated(&mut line, '-', 2);
    assert(repeated('-', width as nat) + repeated('-', 2) =~= repeated('-', (width + 2) as nat));
    line.append("|");
    push_repeated(&mut line, '-', 10);
    line.append("|");
    push_repeated(&mut line, '-', 17);
    line.append("|");
    push_repeated(&mut line, '-', 19);
    line.append("|");
    push_repeated(&mut line, '-', 8);
    line.append("|");
    assert(line@ =~= table_rule(width as nat));
    line
}

/// The table of a report, line by line. `shares` holds the text of the share
/// cell of each row, in the order of the rows: the percentage to one decimal
/// with its percent sign.
pub fn render_table(report: &RankedReport, shares: &[String]) -> (lines: Vec<String>)
    requires
        report.wf(),
    ensures
        views(lines@) == table_lines(report@, shares@),
{
    let width = name_column_width(report);
    let ghost rows = report@;
    let mut lines: Vec<String> = Vec::new();
    lines.push(
        render_table_line(
            width,
            "Contributeur",
            "Commits",
            "Lignes ajoutees",
            "Lignes supprimees",
            "%",
        ),
    );
    lines.push(render_table_rule(width));
    let mut i: usize = 0;
    while i < report.len()
        invariant
            rows == report@,
            i <= rows.len(),
            width == name_width(rows, rows.len() as int),
            lines@.len() == 2 + i,
            lines@[0]@ == table_header(width as nat),
            lines@[1]@ == table_rule(width as nat),
            forall|k: int|
                0 <= k < i ==> (#[trigger] lines@[2 + k])@ == table_row(
                    width as nat,
                    rows[k],
                    share_text(shares@, k),
                ),
        decreases rows.len() - i,
    {
        let row = report.row(i);
        let commits = decimal(row.stats.commits);
        let added = decimal(row.stats.lines_added);
        let deleted = decimal(row.stats.lines_deleted);
        let line = if i < shares.len() {
            render_table_line(
                width,
                row.name.as_str(),
                commits.as_str(),
                added.as_str(),
                deleted.as_str(),
                shares[i].as_str(),
            )
        } else {
            render_table_line(
                width,
                row.name.as_str(),
                commits.as_str(),
                added.as_str(),
                deleted.as_str(),
                "",
            )
        };
        proof {
            reveal_strlit("");
            assert(""@ =~= Seq::<char>::empty());
        }
        lines.push(line);
        i += 1;
    }
    let totals = report.totals();
    let commits = decimal(totals.commits);
    let added = decimal(totals.lines_added);
    let deleted = decimal(totals.lines_deleted);
    lines.push(render_table_rule(width));
    lines.push(
        render_table_line(
            width,
            "TOTAL",
            commits.as_str(),
            added.as_str(),
            deleted.as_str(),
            "100%",
        ),
    );
    proof {
        let got = views(lines@);
        let want = table_lines(rows, shares@);
        assert(got.len() == want.len());
        assert forall|k: int| 0 <= k < got.len() implies got[k] == want[k] by {
            if 2 <= k < 2 + rows.len() {
                assert(lines@[2 + (k - 2)]@ == table_row(
                    width as nat,
                    rows[k - 2],
                    share_text(shares@, k - 2),
                ));
            }
        }
        assert(got =~= want);
    }
    lines
}

} // verus!
