//! Splitting text into lines, lines into fields, and reading numbers.

use vstd::prelude::*;
use crate::text::{is_digit, digit_value, digit_of, to_chars};

verus! {

/// The position of the first line feed of `t` at or after `from`, or the
/// length of `t` where there is none.
pub open spec fn line_end(t: Seq<char>, from: int) -> int
    decreases t.len() - from,
{
    if from < 0 || from >= t.len() {
        t.len() as int
    } else if t[from] == '\n' {
        from
    } else {
        line_end(t, from + 1)
    }
}

/// The line that starts at `from` and is terminated at `end`, without its
/// terminator: the line feed, or the carriage return and line feed. A carriage
/// return at the end of text that no line feed follows stays in the line.
pub open spec fn line_content(t: Seq<char>, from: int, end: int) -> Seq<char> {
    if end < t.len() && from < end && t[end - 1] == '\r' {
        t.subrange(from, end - 1)
    } else {
        t.subrange(from, end)
    }
}

/// The lines of `t` from position `from` on.
pub open spec fn lines_from(t: Seq<char>, from: int) -> Seq<Seq<char>>
    decreases t.len() + 1 - from,
{
    if from < 0 || from >= t.len() {
        Seq::empty()
    } else {
        proof {
            lemma_line_end_bounds(t, from);
        }
        seq![line_content(t, from, line_end(t, from))] + lines_from(t, line_end(t, from) + 1)
    }
}

/// The lines of a text. A final line terminator does not start another line.
pub open spec fn lines_of(t: Seq<char>) -> Seq<Seq<char>> {
    lines_from(t, 0)
}

/// The end of a line lies between its start and the end of the text, on a
/// line feed if inside the text, and no line feed comes before it.
pub proof fn lemma_line_end_bounds(t: Seq<char>, from: int)
    requires
        0 <= from <= t.len(),
    ensures
        from <= line_end(t, from) <= t.len(),
        line_end(t, from) < t.len() ==> t[line_end(t, from)] == '\n',
        forall|j: int| from <= j < line_end(t, from) ==> t[j] != '\n',
    decreases t.len() - from,
{
    if from < t.len() && t[from] != '\n' {
        lemma_line_end_bounds(t, from + 1);
    }
}

/// The character sequences of a list of character vectors.
pub open spec fn line_views(v: Seq<Vec<char>>) -> Seq<Seq<char>> {
    Seq::new(v.len(), |i: int| v[i]@)
}

/// The lines of a text, each as a vector of characters.
pub fn split_lines(text: &str) -> (lines: Vec<Vec<char>>)
    ensures
        line_views(lines@) == lines_of(text@),
{
    let chars = to_chars(text);
    let ghost t = text@;
    let mut lines: Vec<Vec<char>> = Vec::new();
    let mut from: usize = 0;
    while from < chars.len()
        invariant
            chars@ == t,
            from <= t.len(),
            lines_of(t) == line_views(lines@) + lines_from(t, from as int),
        decreases t.len() - from,
    {
        let mut end: usize = from;
        while end < chars.len() && chars[end] != '\n'
            invariant
                chars@ == t,
                from <= end <= t.len(),
                line_end(t, from as int) == line_end(t, end as int),
            decreases t.len() - end,
        {
            end += 1;
        }
        let stop = if end < chars.len() && from < end && chars[end - 1] == '\r' {
            end - 1
        } else {
            end
        };
        let mut line: Vec<char> = Vec::new();
        let mut k: usize = from;
        while k < stop
            invariant
                chars@ == t,
                from <= k <= stop <= t.len(),
                line@ == t.subrange(from as int, k as int),
            decreases stop - k,
        {
            line.push(chars[k]);
            k += 1;
        }
        proof {
            assert(line@ == line_content(t, from as int, end as int));
            assert(line_views(lines@.push(line)) =~= line_views(lines@) + seq![line@]);
            assert(lines_from(t, end + 1) == lines_from(t, if end < t.len() {
                end + 1
            } else {
                end as int
            }));
        }
        lines.push(line);
        from = if end < chars.len() {
            end + 1
        } else {
            end
        };
    }
    proof {
        assert(lines_from(t, from as int) =~= Seq::<Seq<char>>::empty());
    }
    lines
}

/// White space as Unicode defines it: what separates fields, and what
/// trimming removes.
pub open spec fn is_space(c: char) -> bool {
    let u = c as u32;
    (9 <= u <= 13) || u == 32 || u == 0x85 || u == 0xA0 || u == 0x1680 || (0x2000 <= u <= 0x200A)
        || u == 0x2028 || u == 0x2029 || u == 0x202F || u == 0x205F || u == 0x3000
}

/// Whether the character is white space.
pub fn is_space_char(c: char) -> (b: bool)
    ensures
        b == is_space(c),
{
    let u = c as u32;
    (9 <= u && u <= 13) || u == 32 || u == 0x85 || u == 0xA0 || u == 0x1680 || (0x2000 <= u && u
        <= 0x200A) || u == 0x2028 || u == 0x2029 || u == 0x202F || u == 0x205F || u == 0x3000
}

/// The first position at or after `i` that holds no white space, or the
/// length of `s`.
pub open spec fn skip_spaces(s: Seq<char>, i: int) -> int
    decreases s.len() - i,
{
    if i < 0 || i >= s.len() {
        s.len() as int
    } else if is_space(s[i]) {
        skip_spaces(s, i + 1)
    } else {
        i
    }
}

/// The first position at or after `i` that holds white space, or the length
/// of `s`.
pub open spec fn field_end(s: Seq<char>, i: int) -> int
    decreases s.len() - i,
{
    if i < 0 || i >= s.len() {
        s.len() as int
    } else if is_space(s[i]) {
        i
    } else {
        field_end(s, i + 1)
    }
}

/// The fields of `s` from position `i` on.
pub open spec fn fields_from(s: Seq<char>, i: int) -> Seq<Seq<char>>
    decreases s.len() - i,
    when i >= 0
{
    if skip_spaces(s, i) >= s.len() {
        Seq::empty()
    } else {
        proof {
            lemma_skip_spaces_bounds(s, i);
            lemma_field_end_bounds(s, skip_spaces(s, i));
        }
        seq![s.subrange(skip_spaces(s, i), field_end(s, skip_spaces(s, i)))] + fields_from(
            s,
            field_end(s, skip_spaces(s, i)),
        )
    }
}

/// The fields of a line: its maximal runs of characters that are not white
/// space, in order.
pub open spec fn fields_of(s: Seq<char>) -> Seq<Seq<char>> {
    fields_from(s, 0)
}

/// Skipping white space stops inside the text on a character that is not
/// white space, or at the end of the text.
pub proof fn lemma_skip_spaces_bounds(s: Seq<char>, i: int)
    requires
        0 <= i,
    ensures
        i <= skip_spaces(s, i) || skip_spaces(s, i) == s.len(),
        skip_spaces(s, i) <= s.len(),
        skip_spaces(s, i) < s.len() ==> !is_space(s[skip_spaces(s, i)]),
    decreases s.len() - i,
{
    if i < s.len() && is_space(s[i]) {
        lemma_skip_spaces_bounds(s, i + 1);
    }
}

/// A field ends between its start and the end of the text, and is not
/// empty where it starts on a character that is not white space.
pub proof fn lemma_field_end_bounds(s: Seq<char>, i: int)
    requires
        0 <= i <= s.len(),
    ensures
        i <= field_end(s, i) <= s.len(),
        i < s.len() && !is_space(s[i]) ==> i < field_end(s, i),
    decreases s.len() - i,
{
    if i < s.len() && !is_space(s[i]) {
        lemma_field_end_bounds(s, i + 1);
    }
}

/// The line without the white space at its start and at its end.
pub open spec fn trimmed(s: Seq<char>) -> Seq<char> {
    s.subrange(skip_spaces(s, 0), trim_end(s, s.len() as int))
}

/// The end of the line once the white space before position `j` is removed,
/// never less than where the leading white space ends.
pub open spec fn trim_end(s: Seq<char>, j: int) -> int
    decreases j,
{
    if j <= 0 || j <= skip_spaces(s, 0) || j > s.len() {
        skip_spaces(s, 0)
    } else if is_space(s[j - 1]) {
        trim_end(s, j - 1)
    } else {
        j
    }
}

/// The position where the next field starts, at or after `i`.
pub fn next_field_start(s: &[char], i: usize) -> (r: usize)
    requires
        i <= s@.len(),
    ensures
        r == skip_spaces(s@, i as int),
        i <= r <= s@.len(),
{
    let mut k = i;
    while k < s.len() && is_space_char(s[k])
        invariant
            i <= k <= s@.len(),
            skip_spaces(s@, i as int) == skip_spaces(s@, k as int),
        decreases s@.len() - k,
    {
        k += 1;
    }
    k
}

/// The position where the field that starts at `i` ends.
pub fn next_field_end(s: &[char], i: usize) -> (r: usize)
    requires
        i <= s@.len(),
    ensures
        r == field_end(s@, i as int),
        i <= r <= s@.len(),
{
    let mut k = i;
    while k < s.len() && !is_space_char(s[k])
        invariant
            i <= k <= s@.len(),
            field_end(s@, i as int) == field_end(s@, k as int),
        decreases s@.len() - k,
    {
        k += 1;
    }
    k
}

/// The line without the white space at its start and at its end.
pub fn trim(s: &[char]) -> (r: Vec<char>)
    ensures
        r@ == trimmed(s@),
{
    let start = next_field_start(s, 0);
    let mut end = s.len();
    while end > start && is_space_char(s[end - 1])
        invariant
            start == skip_spaces(s@, 0),
            start <= end <= s@.len(),
            trim_end(s@, s@.len() as int) == trim_end(s@, end as int),
        decreases end,
    {
        end -= 1;
    }
    let mut r: Vec<char> = Vec::new();
    let mut k = start;
    while k < end
        invariant
            start <= k <= end <= s@.len(),
            r@ == s@.subrange(start as int, k as int),
        decreases end - k,
    {
        r.push(s[k]);
        k += 1;
    }
    r
}

/// The first two fields of a line, as the positions where each starts and
/// ends, if the line has two fields.
pub fn first_two_fields(s: &[char]) -> (r: Option<(usize, usize, usize, usize)>)
    ensures
        r is Some == (fields_of(s@).len() >= 2),
        match r {
            Some((a0, b0, a1, b1)) => {
                &&& a0 <= b0 <= a1 <= b1 <= s@.len()
                &&& fields_of(s@)[0] == s@.subrange(a0 as int, b0 as int)
                &&& fields_of(s@)[1] == s@.subrange(a1 as int, b1 as int)
            },
            None => true,
        },
{
    let a0 = next_field_start(s, 0);
    if a0 >= s.len() {
        return None;
    }
    let b0 = next_field_end(s, a0);
    let a1 = next_field_start(s, b0);
    proof {
        lemma_skip_spaces_bounds(s@, 0);
        lemma_field_end_bounds(s@, a0 as int);
        lemma_skip_spaces_bounds(s@, b0 as int);
        assert(fields_of(s@) == seq![s@.subrange(a0 as int, b0 as int)] + fields_from(
            s@,
            b0 as int,
        ));
    }
    if a1 >= s.len() {
        return None;
    }
    let b1 = next_field_end(s, a1);
    proof {
        lemma_field_end_bounds(s@, a1 as int);
        assert(fields_from(s@, b0 as int) == seq![s@.subrange(a1 as int, b1 as int)] + fields_from(
            s@,
            b1 as int,
        ));
    }
    Some((a0, b0, a1, b1))
}

/// The number that a run of decimal digits writes.
pub open spec fn digits_value(s: Seq<char>) -> nat
    decreases s.len(),
{
    if s.len() == 0 {
        0
    } else {
        digits_value(s.drop_last()) * 10 + digit_value(s.last())
    }
}

/// Every character is a decimal digit.
pub open spec fn all_digits(s: Seq<char>) -> bool {
    forall|i: int| 0 <= i < s.len() ==> is_digit(#[trigger] s[i])
}

/// The field without the `+` that may stand in front of its digits.
pub open spec fn unsigned_part(s: Seq<char>) -> Seq<char> {
    if s.len() > 0 && s[0] == '+' {
        s.skip(1)
    } else {
        s
    }
}

/// The number that a field writes: one or more decimal digits, with or
/// without a `+` in front, of a value that fits in a `u64`. Any other field
/// is not a number.
pub open spec fn parse_decimal(s: Seq<char>) -> Option<u64> {
    let body = unsigned_part(s);
    if body.len() > 0 && all_digits(body) && digits_value(body) <= u64::MAX {
        Some(digits_value(body) as u64)
    } else {
        None
    }
}

/// A number is at least what any of its leading digits write.
proof fn lemma_digits_prefix(s: Seq<char>, k: int)
    requires
        0 <= k <= s.len(),
    ensures
        digits_value(s.take(k)) <= digits_value(s),
    decreases s.len() - k,
{
    if k < s.len() {
        lemma_digits_prefix(s, k + 1);
        assert(s.take(k + 1).drop_last() =~= s.take(k));
    } else {
        assert(s.take(k) =~= s);
    }
}

/// Reads the field `s[from..to]` as a number.
pub fn parse_field(s: &[char], from: usize, to: usize) -> (r: Option<u64>)
    requires
        from <= to <= s@.len(),
    ensures
        r == parse_decimal(s@.subrange(from as int, to as int)),
{
    let ghost field = s@.subrange(from as int, to as int);
    let start = if from < to && s[from] == '+' {
        from + 1
    } else {
        from
    };
    let ghost body = unsigned_part(field);
    assert(body =~= s@.subrange(start as int, to as int));
    if start >= to {
        return None;
    }
    let mut value: u64 = 0;
    let mut k: usize = start;
    while k < to
        invariant
            from <= start <= k <= to <= s@.len(),
            start < to,
            field == s@.subrange(from as int, to as int),
            body == unsigned_part(field),
            body == s@.subrange(start as int, to as int),
            all_digits(body.take(k - start)),
            value == digits_value(body.take(k - start)),
        decreases to - k,
    {
        proof {
            assert(body.take(k + 1 - start).drop_last() =~= body.take(k - start));
            assert(body.take(k + 1 - start).last() == s@[k as int]);
            lemma_digits_prefix(body, k + 1 - start);
        }
        let digit = match digit_of(s[k]) {
            Some(d) => d,
            None => {
                assert(!is_digit(body[k - start]));
                return None;
            },
        };
        let tenfold = match value.checked_mul(10) {
            Some(v) => v,
            None => {
                return None;
            },
        };
        value = match tenfold.checked_add(digit as u64) {
            Some(v) => v,
            None => {
                return None;
            },
        };
        proof {
            assert forall|i: int| 0 <= i < k + 1 - start implies is_digit(
                #[trigger] body.take(k + 1 - start)[i],
            ) by {
                if i < k - start {
                    assert(body.take(k - start)[i] == body[i]);
                }
            }
        }
        k += 1;
    }
    assert(body.take(k - start) =~= body);
    Some(value)
}

} // verus!
