//! Re-grouping a per-date series into periods of a fixed number of days.
//!
//! Buckets are local to a month: the bucket of a date keeps its year and
//! month and lowers the day `d` to `d - d % n`. Bucket boundaries therefore
//! start again every month, and the first bucket of a month is labelled with
//! day `00` whenever the period is longer than one day.

use vstd::prelude::*;
use crate::date::{has_day, day_of, with_day, day_of_chars, with_day_chars};
use crate::series::{
    DateSeries, total, count_at, has_key, lemma_total_concat, lemma_series_extensional,
};
use crate::text::to_chars;

verus! {

/// The period lengths that a series can be bucketed by.
#[derive(Clone, Copy, Debug, PartialEq, Eq, Structural)]
pub enum Period {
    Day,
    ThreeDays,
    Week,
    Month,
    Year,
}

impl Period {
    /// The length of the period in days.
    pub open spec fn length(self) -> nat {
        match self {
            Period::Day => 1,
            Period::ThreeDays => 3,
            Period::Week => 7,
            Period::Month => 30,
            Period::Year => 365,
        }
    }

    /// The length of the period in days.
    pub fn days(self) -> (n: u32)
        ensures
            n == self.length(),
    {
        match self {
            Period::Day => 1,
            Period::ThreeDays => 3,
            Period::Week => 7,
            Period::Month => 30,
            Period::Year => 365,
        }
    }

    /// The period of `n` days, where that is one of 1, 3, 7, 30 and 365.
    pub fn from_days(n: u32) -> (r: Option<Period>)
        ensures
            r is Some == (n == 1 || n == 3 || n == 7 || n == 30 || n == 365),
            r is Some ==> r->0.length() == n,
    {
        if n == 1 {
            Some(Period::Day)
        } else if n == 3 {
            Some(Period::ThreeDays)
        } else if n == 7 {
            Some(Period::Week)
        } else if n == 30 {
            Some(Period::Month)
        } else if n == 365 {
            Some(Period::Year)
        } else {
            None
        }
    }
}

/// The first day of the bucket that day `day` falls in, for periods of `n` days.
pub open spec fn bucket_day(day: nat, n: nat) -> nat
    recommends
        n > 0,
{
    (day - day % n) as nat
}

/// The key of the bucket that the entry with key `k` falls in. For a period
/// of one day every key is its own bucket, and so is, for any period, a key
/// that does not carry a two-digit day.
pub open spec fn bucket_key(k: Seq<char>, n: nat) -> Seq<char> {
    if n > 1 && has_day(k) {
        with_day(k, bucket_day(day_of(k), n))
    } else {
        k
    }
}

/// The sum of the counts of the entries of `s` that fall in bucket `q`.
pub open spec fn group_total(s: Seq<(Seq<char>, u64)>, n: nat, q: Seq<char>) -> nat
    decreases s.len(),
{
    if s.len() == 0 {
        0
    } else {
        group_total(s.drop_last(), n, q) + if bucket_key(s.last().0, n) == q {
            s.last().1 as nat
        } else {
            0
        }
    }
}

/// Some entry of `s` falls in bucket `q`.
pub open spec fn has_group(s: Seq<(Seq<char>, u64)>, n: nat, q: Seq<char>) -> bool {
    exists|i: int| 0 <= i < s.len() && bucket_key((#[trigger] s[i]).0, n) == q
}

/// With a period of one day each key is its own bucket.
proof fn lemma_group_identity(s: Seq<(Seq<char>, u64)>, q: Seq<char>)
    ensures
        group_total(s, 1, q) == count_at(s, q),
        has_group(s, 1, q) == has_key(s, q),
    decreases s.len(),
{
    if s.len() > 0 {
        lemma_group_identity(s.drop_last(), q);
    }
    if has_group(s, 1, q) {
        let i = choose|i: int| 0 <= i < s.len() && bucket_key((#[trigger] s[i]).0, 1) == q;
        assert(s[i].0 == q);
    }
    if has_key(s, q) {
        let i = choose|i: int| 0 <= i < s.len() && (#[trigger] s[i]).0 == q;
        assert(bucket_key(s[i].0, 1) == q);
    }
}

/// What taking one more entry of `s` into account adds to each bucket.
proof fn lemma_group_step(s: Seq<(Seq<char>, u64)>, i: int, n: nat)
    requires
        0 <= i < s.len(),
    ensures
        total(s.take(i + 1)) == total(s.take(i)) + s[i].1,
        total(s.take(i + 1)) <= total(s),
        forall|q: Seq<char>| #[trigger]
            group_total(s.take(i + 1), n, q) == group_total(s.take(i), n, q) + if bucket_key(
                s[i].0,
                n,
            ) == q {
                s[i].1 as nat
            } else {
                0
            },
        forall|q: Seq<char>| #[trigger]
            has_group(s.take(i + 1), n, q) == (has_group(s.take(i), n, q) || bucket_key(
                s[i].0,
                n,
            ) == q),
{
    let a = s.take(i);
    let b = s.take(i + 1);
    assert(b.drop_last() =~= a);
    assert(b.last() == s[i]);
    assert(s =~= b + s.skip(i + 1));
    lemma_total_concat(b, s.skip(i + 1));
    assert forall|q: Seq<char>| #[trigger]
        has_group(b, n, q) == (has_group(a, n, q) || bucket_key(s[i].0, n) == q) by {
        if has_group(a, n, q) {
            let j = choose|j: int| 0 <= j < a.len() && bucket_key((#[trigger] a[j]).0, n) == q;
            assert(b[j] == a[j]);
        }
        if bucket_key(s[i].0, n) == q {
            assert(b[i] == s[i]);
        }
        if has_group(b, n, q) {
            let j = choose|j: int| 0 <= j < b.len() && bucket_key((#[trigger] b[j]).0, n) == q;
            if j < i {
                assert(a[j] == b[j]);
            }
        }
    }
}

/// The bucket key of `key` for the given period.
pub fn bucket_key_of(key: &str, period: Period) -> (r: String)
    ensures
        r@ == bucket_key(key@, period.length()),
{
    let n = period.days();
    if n <= 1 {
        return key.to_owned();
    }
    let chars = to_chars(key);
    match day_of_chars(chars.as_slice()) {
        Some(day) => {
            let d = day as u32;
            let start = d - d % n;
            with_day_chars(chars.as_slice(), start as u8)
        },
        None => key.to_owned(),
    }
}

/// The series re-grouped into periods. Each entry goes to the bucket named by
/// [`bucket_key`]; a bucket holds the sum of its entries and exists only where
/// an entry falls in it.
///
/// Nothing is lost: the total of the result is the total of the source. For a
/// period of one day the result is the source itself.
pub fn bucket(series: &DateSeries, period: Period) -> (r: DateSeries)
    requires
        series.wf(),
    ensures
        r.wf(),
        total(r@) == total(series@),
        period == Period::Day ==> r@ == series@,
        r@.len() <= series@.len(),
        forall|q: Seq<char>| #[trigger]
            has_key(r@, q) == has_group(series@, period.length(), q),
        forall|q: Seq<char>| #[trigger]
            count_at(r@, q) == group_total(series@, period.length(), q),
{
    let ghost s = series@;
    let ghost n = period.length();
    let mut r = DateSeries::new();
    let mut i: usize = 0;
    while i < series.len()
        invariant
            s == series@,
            n == period.length(),
            series.wf(),
            i <= s.len(),
            r.wf(),
            r@.len() <= i,
            total(r@) == total(s.take(i as int)),
            forall|q: Seq<char>| #[trigger]
                has_key(r@, q) == has_group(s.take(i as int), n, q),
            forall|q: Seq<char>| #[trigger]
                count_at(r@, q) == group_total(s.take(i as int), n, q),
        decreases s.len() - i,
    {
        proof {
            lemma_group_step(s, i as int, n);
        }
        let key = bucket_key_of(series.key_at(i).as_str(), period);
        let added = r.add(key.as_str(), series.value_at(i));
        assert(added);
        i += 1;
    }
    proof {
        assert(s.take(i as int) =~= s);
        if period == Period::Day {
            assert forall|q: Seq<char>| has_key(r@, q) == has_key(s, q) by {
                lemma_group_identity(s, q);
            }
            assert forall|q: Seq<char>| count_at(r@, q) == count_at(s, q) by {
                lemma_group_identity(s, q);
            }
            lemma_series_extensional(r@, s);
        }
    }
    r
}

} // verus!
