//! A per-date count series: one count per date key, kept in ascending key
//! order, with a grand total that fits in a `u64`.

use vstd::prelude::*;
use crate::text::{
    precedes, str_precedes, str_same, lemma_precedes_irreflexive, lemma_precedes_transitive,
    lemma_precedes_asymmetric, lemma_precedes_total,
};

verus! {

/// The sum of all counts of `s`.
pub open spec fn total(s: Seq<(Seq<char>, u64)>) -> nat
    decreases s.len(),
{
    if s.len() == 0 {
        0
    } else {
        total(s.drop_last()) + s.last().1 as nat
    }
}

/// The sum of the counts that `s` holds under key `k`; where keys are unique
/// this is the count at `k`, or 0 where `k` is absent.
pub open spec fn count_at(s: Seq<(Seq<char>, u64)>, k: Seq<char>) -> nat
    decreases s.len(),
{
    if s.len() == 0 {
        0
    } else {
        count_at(s.drop_last(), k) + if s.last().0 == k {
            s.last().1 as nat
        } else {
            0
        }
    }
}

/// Some entry of `s` has key `k`.
pub open spec fn has_key(s: Seq<(Seq<char>, u64)>, k: Seq<char>) -> bool {
    exists|i: int| 0 <= i < s.len() && (#[trigger] s[i]).0 == k
}

/// The keys of `s` are strictly ascending, so each occurs once.
pub open spec fn keys_ascending(s: Seq<(Seq<char>, u64)>) -> bool {
    forall|i: int, j: int|
        #![trigger s[i], s[j]]
        0 <= i < j < s.len() ==> precedes(s[i].0, s[j].0)
}

/// What every series satisfies: ascending unique keys and a total within `u64`.
pub open spec fn is_series(s: Seq<(Seq<char>, u64)>) -> bool {
    keys_ascending(s) && total(s) <= u64::MAX
}

/// The keys of `s`, in order.
pub open spec fn keys_of(s: Seq<(Seq<char>, u64)>) -> Seq<Seq<char>> {
    Seq::new(s.len(), |i: int| s[i].0)
}

/// The total of two runs of entries is the sum of their totals.
pub proof fn lemma_total_concat(a: Seq<(Seq<char>, u64)>, b: Seq<(Seq<char>, u64)>)
    ensures
        total(a + b) == total(a) + total(b),
    decreases b.len(),
{
    if b.len() == 0 {
        assert(a + b =~= a);
    } else {
        assert((a + b).drop_last() =~= a + b.drop_last());
        lemma_total_concat(a, b.drop_last());
    }
}

/// The count under a key over two runs of entries is the sum of the counts
/// over each.
pub proof fn lemma_count_concat(
    a: Seq<(Seq<char>, u64)>,
    b: Seq<(Seq<char>, u64)>,
    k: Seq<char>,
)
    ensures
        count_at(a + b, k) == count_at(a, k) + count_at(b, k),
    decreases b.len(),
{
    if b.len() == 0 {
        assert(a + b =~= a);
    } else {
        assert((a + b).drop_last() =~= a + b.drop_last());
        lemma_count_concat(a, b.drop_last(), k);
    }
}

/// The total of a single entry, and the count under each key.
pub proof fn lemma_single(e: (Seq<char>, u64), k: Seq<char>)
    ensures
        total(seq![e]) == e.1,
        count_at(seq![e], k) == if e.0 == k { e.1 as nat } else { 0 },
{
    let s = seq![e];
    assert(s.drop_last().len() == 0);
    assert(s.last() == e);
    assert(total(s.drop_last()) == 0);
    assert(count_at(s.drop_last(), k) == 0);
}

/// Inserting an entry anywhere raises the total by its count.
pub proof fn lemma_total_insert(s: Seq<(Seq<char>, u64)>, i: int, e: (Seq<char>, u64))
    requires
        0 <= i <= s.len(),
    ensures
        total(s.insert(i, e)) == total(s) + e.1,
{
    let left = s.take(i);
    let right = s.skip(i);
    assert(s =~= left + right);
    assert(s.insert(i, e) =~= left + seq![e] + right);
    lemma_total_concat(left, right);
    lemma_total_concat(left + seq![e], right);
    lemma_total_concat(left, seq![e]);
    lemma_single(e, e.0);
}

/// A key that `s` lacks counts 0.
pub proof fn lemma_count_absent(s: Seq<(Seq<char>, u64)>, k: Seq<char>)
    requires
        !has_key(s, k),
    ensures
        count_at(s, k) == 0,
    decreases s.len(),
{
    if s.len() > 0 {
        assert(s[s.len() - 1].0 != k);
        assert forall|i: int| 0 <= i < s.drop_last().len() implies (#[trigger] s.drop_last()[i]).0
            != k by {
            assert(s[i].0 != k);
        }
        lemma_count_absent(s.drop_last(), k);
    }
}

/// The count under one key never exceeds the total.
pub proof fn lemma_count_le_total(s: Seq<(Seq<char>, u64)>, k: Seq<char>)
    ensures
        count_at(s, k) <= total(s),
    decreases s.len(),
{
    if s.len() > 0 {
        lemma_count_le_total(s.drop_last(), k);
    }
}

/// With ascending keys, the count under the key of entry `i` is that entry's.
pub proof fn lemma_count_present(s: Seq<(Seq<char>, u64)>, i: int)
    requires
        keys_ascending(s),
        0 <= i < s.len(),
    ensures
        count_at(s, s[i].0) == s[i].1,
{
    let k = s[i].0;
    let left = s.take(i);
    let right = s.skip(i + 1);
    let mid = seq![s[i]];
    assert(s =~= left + mid + right);
    assert forall|j: int| 0 <= j < left.len() implies (#[trigger] left[j]).0 != k by {
        assert(precedes(s[j].0, s[i].0));
        lemma_precedes_irreflexive(k);
    }
    assert forall|j: int| 0 <= j < right.len() implies (#[trigger] right[j]).0 != k by {
        assert(right[j] == s[i + 1 + j]);
        assert(precedes(s[i].0, s[i + 1 + j].0));
        lemma_precedes_irreflexive(k);
    }
    lemma_count_absent(left, k);
    lemma_count_absent(right, k);
    lemma_count_concat(left + mid, right, k);
    lemma_count_concat(left, mid, k);
    lemma_single(s[i], k);
}

/// What placing a new key at its sorted position does to a series.
pub proof fn lemma_insert_new(s: Seq<(Seq<char>, u64)>, i: int, k: Seq<char>, n: u64)
    requires
        keys_ascending(s),
        0 <= i <= s.len(),
        forall|j: int| 0 <= j < i ==> precedes((#[trigger] s[j]).0, k),
        forall|j: int| i <= j < s.len() ==> precedes(k, (#[trigger] s[j]).0),
    ensures
        keys_ascending(s.insert(i, (k, n))),
        total(s.insert(i, (k, n))) == total(s) + n,
        forall|q: Seq<char>| #[trigger]
            count_at(s.insert(i, (k, n)), q) == count_at(s, q) + if q == k {
                n as nat
            } else {
                0
            },
        forall|q: Seq<char>| #[trigger]
            has_key(s.insert(i, (k, n)), q) == (has_key(s, q) || q == k),
{
    let t = s.insert(i, (k, n));
    let left = s.take(i);
    let right = s.skip(i);
    let mid = seq![(k, n)];
    assert(s =~= left + right);
    assert(t =~= left + mid + right);
    assert forall|a: int, b: int| 0 <= a < b < t.len() implies precedes(
        (#[trigger] t[a]).0,
        (#[trigger] t[b]).0,
    ) by {
        if b < i {
            assert(t[a] == s[a] && t[b] == s[b]);
        } else if b == i {
            assert(t[a] == s[a]);
        } else if a < i {
            assert(t[a] == s[a] && t[b] == s[b - 1]);
            if b - 1 == a {
                lemma_precedes_transitive(s[a].0, k, s[b - 1].0);
            }
        } else if a == i {
            assert(t[b] == s[b - 1]);
        } else {
            assert(t[a] == s[a - 1] && t[b] == s[b - 1]);
        }
    }
    lemma_total_concat(left, right);
    lemma_total_concat(left + mid, right);
    lemma_total_concat(left, mid);
    lemma_single((k, n), k);
    assert forall|q: Seq<char>| #[trigger]
        count_at(t, q) == count_at(s, q) + if q == k {
            n as nat
        } else {
            0
        } by {
        lemma_count_concat(left, right, q);
        lemma_count_concat(left + mid, right, q);
        lemma_count_concat(left, mid, q);
        lemma_single((k, n), q);
    }
    assert forall|q: Seq<char>| #[trigger] has_key(t, q) == (has_key(s, q) || q == k) by {
        if has_key(s, q) {
            let j = choose|j: int| 0 <= j < s.len() && (#[trigger] s[j]).0 == q;
            if j < i {
                assert(t[j].0 == q);
            } else {
                assert(t[j + 1].0 == q);
            }
        }
        if q == k {
            assert(t[i].0 == q);
        }
        if has_key(t, q) {
            let j = choose|j: int| 0 <= j < t.len() && (#[trigger] t[j]).0 == q;
            if j < i {
                assert(s[j].0 == q);
            } else if j > i {
                assert(s[j - 1].0 == q);
            }
        }
    }
}

/// What raising the count of entry `i` by `n` does to a series.
pub proof fn lemma_raise_existing(s: Seq<(Seq<char>, u64)>, i: int, n: u64)
    requires
        keys_ascending(s),
        0 <= i < s.len(),
        s[i].1 + n <= u64::MAX,
    ensures
        keys_ascending(s.update(i, (s[i].0, (s[i].1 + n) as u64))),
        total(s.update(i, (s[i].0, (s[i].1 + n) as u64))) == total(s) + n,
        forall|q: Seq<char>| #[trigger]
            count_at(s.update(i, (s[i].0, (s[i].1 + n) as u64)), q) == count_at(s, q) + if q
                == s[i].0 {
                n as nat
            } else {
                0
            },
        forall|q: Seq<char>| #[trigger]
            has_key(s.update(i, (s[i].0, (s[i].1 + n) as u64)), q) == has_key(s, q),
{
    let k = s[i].0;
    let e = (k, (s[i].1 + n) as u64);
    let t = s.update(i, e);
    let left = s.take(i);
    let right = s.skip(i + 1);
    assert(s =~= left + seq![s[i]] + right);
    assert(t =~= left + seq![e] + right);
    assert forall|a: int, b: int| 0 <= a < b < t.len() implies precedes(
        (#[trigger] t[a]).0,
        (#[trigger] t[b]).0,
    ) by {
        assert(t[a].0 == s[a].0 && t[b].0 == s[b].0);
    }
    lemma_total_concat(left + seq![s[i]], right);
    lemma_total_concat(left, seq![s[i]]);
    lemma_total_concat(left + seq![e], right);
    lemma_total_concat(left, seq![e]);
    lemma_single(s[i], k);
    lemma_single(e, k);
    assert forall|q: Seq<char>| #[trigger]
        count_at(t, q) == count_at(s, q) + if q == k {
            n as nat
        } else {
            0
        } by {
        lemma_count_concat(left + seq![s[i]], right, q);
        lemma_count_concat(left, seq![s[i]], q);
        lemma_count_concat(left + seq![e], right, q);
        lemma_count_concat(left, seq![e], q);
        lemma_single(s[i], q);
        lemma_single(e, q);
    }
    assert forall|q: Seq<char>| #[trigger] has_key(t, q) == has_key(s, q) by {
        if has_key(s, q) {
            let j = choose|j: int| 0 <= j < s.len() && (#[trigger] s[j]).0 == q;
            assert(t[j].0 == q);
        }
        if has_key(t, q) {
            let j = choose|j: int| 0 <= j < t.len() && (#[trigger] t[j]).0 == q;
            assert(s[j].0 == q);
        }
    }
}

/// What the entry at index `i` adds to the first `i` entries of `s`.
pub proof fn lemma_take_step(s: Seq<(Seq<char>, u64)>, i: int)
    requires
        0 <= i < s.len(),
    ensures
        total(s.take(i + 1)) == total(s.take(i)) + s[i].1,
        total(s.take(i + 1)) <= total(s),
        forall|q: Seq<char>| #[trigger]
            count_at(s.take(i + 1), q) == count_at(s.take(i), q) + if s[i].0 == q {
                s[i].1 as nat
            } else {
                0
            },
        forall|q: Seq<char>| #[trigger]
            has_key(s.take(i + 1), q) == (has_key(s.take(i), q) || s[i].0 == q),
{
    let a = s.take(i);
    let b = s.take(i + 1);
    assert(b.drop_last() =~= a);
    assert(b.last() == s[i]);
    assert(s =~= b + s.skip(i + 1));
    lemma_total_concat(b, s.skip(i + 1));
    assert forall|q: Seq<char>| #[trigger] has_key(b, q) == (has_key(a, q) || s[i].0 == q) by {
        if has_key(a, q) {
            let j = choose|j: int| 0 <= j < a.len() && (#[trigger] a[j]).0 == q;
            assert(b[j] == a[j]);
        }
        if s[i].0 == q {
            assert(b[i] == s[i]);
        }
        if has_key(b, q) {
            let j = choose|j: int| 0 <= j < b.len() && (#[trigger] b[j]).0 == q;
            if j < i {
                assert(a[j] == b[j]);
            }
        }
    }
}

/// Dropping the last entry of an ascending series removes exactly its key.
pub proof fn lemma_drop_last_effects(s: Seq<(Seq<char>, u64)>)
    requires
        keys_ascending(s),
        s.len() > 0,
    ensures
        keys_ascending(s.drop_last()),
        forall|q: Seq<char>| #[trigger]
            has_key(s.drop_last(), q) == (has_key(s, q) && q != s.last().0),
        forall|q: Seq<char>| #[trigger]
            count_at(s.drop_last(), q) == if q == s.last().0 {
                0
            } else {
                count_at(s, q)
            },
{
    let d = s.drop_last();
    let k = s.last().0;
    assert forall|a: int, b: int| 0 <= a < b < d.len() implies precedes(
        (#[trigger] d[a]).0,
        (#[trigger] d[b]).0,
    ) by {
        assert(d[a] == s[a] && d[b] == s[b]);
    }
    assert forall|j: int| 0 <= j < d.len() implies (#[trigger] d[j]).0 != k by {
        assert(d[j] == s[j]);
        assert(precedes(s[j].0, s[s.len() - 1].0));
        lemma_precedes_irreflexive(k);
    }
    assert forall|q: Seq<char>| #[trigger] has_key(d, q) == (has_key(s, q) && q != k) by {
        if has_key(d, q) {
            let j = choose|j: int| 0 <= j < d.len() && (#[trigger] d[j]).0 == q;
            assert(s[j].0 == q);
        }
        if has_key(s, q) && q != k {
            let j = choose|j: int| 0 <= j < s.len() && (#[trigger] s[j]).0 == q;
            assert(d[j].0 == q);
        }
    }
    lemma_count_absent(d, k);
}

/// A series is determined by its keys and the count under each: two series
/// that agree on both are the same sequence of entries.
pub proof fn lemma_series_extensional(a: Seq<(Seq<char>, u64)>, b: Seq<(Seq<char>, u64)>)
    requires
        keys_ascending(a),
        keys_ascending(b),
        forall|q: Seq<char>| has_key(a, q) == has_key(b, q),
        forall|q: Seq<char>| count_at(a, q) == count_at(b, q),
    ensures
        a == b,
    decreases a.len(),
{
    if a.len() == 0 {
        if b.len() > 0 {
            assert(b[0].0 == b[0].0);
            assert(has_key(b, b[0].0));
            assert(has_key(a, b[0].0));
        }
        assert(a =~= b);
    } else {
        let ka = a.last().0;
        assert(a[a.len() - 1].0 == ka);
        assert(has_key(a, ka));
        assert(has_key(b, ka));
        let j = choose|j: int| 0 <= j < b.len() && (#[trigger] b[j]).0 == ka;
        let kb = b.last().0;
        assert(b[b.len() - 1].0 == kb);
        assert(has_key(b, kb));
        assert(has_key(a, kb));
        let i = choose|i: int| 0 <= i < a.len() && (#[trigger] a[i]).0 == kb;
        if ka != kb {
            assert(i < a.len() - 1);
            assert(j < b.len() - 1);
            assert(precedes(a[i].0, a[a.len() - 1].0));
            assert(precedes(b[j].0, b[b.len() - 1].0));
            lemma_precedes_asymmetric(ka, kb);
        }
        lemma_count_present(a, a.len() - 1);
        lemma_count_present(b, b.len() - 1);
        assert(a.last().1 == b.last().1);
        lemma_drop_last_effects(a);
        lemma_drop_last_effects(b);
        lemma_series_extensional(a.drop_last(), b.drop_last());
        assert(a =~= a.drop_last().push(a.last()));
        assert(b =~= b.drop_last().push(b.last()));
        assert(a.last() == b.last());
    }
}

/// The series `s` re-expressed over the keys of `reference`: one entry per
/// reference key, in the same order, holding the count that `s` has under that
/// key, or 0 where `s` lacks it. The counts of `reference` play no part.
pub open spec fn filled(s: Seq<(Seq<char>, u64)>, reference: Seq<(Seq<char>, u64)>) -> Seq<
    (Seq<char>, u64),
> {
    Seq::new(reference.len(), |i: int| (reference[i].0, count_at(s, reference[i].0) as u64))
}

proof fn lemma_filled_last(s: Seq<(Seq<char>, u64)>, reference: Seq<(Seq<char>, u64)>)
    requires
        keys_ascending(reference),
        s.len() > 0,
        total(s) <= u64::MAX,
    ensures
        total(filled(s, reference)) == total(filled(s.drop_last(), reference)) + if has_key(
            reference,
            s.last().0,
        ) {
            s.last().1 as nat
        } else {
            0
        },
    decreases reference.len(),
{
    let sd = s.drop_last();
    let e = s.last();
    if reference.len() == 0 {
        assert(!has_key(reference, e.0));
    } else {
        let rd = reference.drop_last();
        let kl = reference.last().0;
        lemma_drop_last_effects(reference);
        lemma_filled_last(s, rd);
        assert(filled(s, reference).drop_last() =~= filled(s, rd));
        assert(filled(sd, reference).drop_last() =~= filled(sd, rd));
        lemma_count_le_total(s, kl);
        lemma_count_le_total(sd, kl);
        assert(reference[reference.len() - 1].0 == kl);
        assert(has_key(reference, kl));
    }
}

/// Filling never adds to a series, and loses nothing where the reference
/// holds every key of the series.
pub proof fn lemma_filled_total(s: Seq<(Seq<char>, u64)>, reference: Seq<(Seq<char>, u64)>)
    requires
        keys_ascending(reference),
        total(s) <= u64::MAX,
    ensures
        total(filled(s, reference)) <= total(s),
        (forall|q: Seq<char>| has_key(s, q) ==> has_key(reference, q)) ==> total(
            filled(s, reference),
        ) == total(s),
    decreases s.len(),
{
    if s.len() == 0 {
        assert(s =~= Seq::empty());
        lemma_filled_of_empty(reference);
    } else {
        let sd = s.drop_last();
        lemma_filled_total(sd, reference);
        lemma_filled_last(s, reference);
        if forall|q: Seq<char>| has_key(s, q) ==> has_key(reference, q) {
            assert(s[s.len() - 1].0 == s.last().0);
            assert(has_key(s, s.last().0));
            assert forall|q: Seq<char>| has_key(sd, q) implies has_key(reference, q) by {
                let j = choose|j: int| 0 <= j < sd.len() && (#[trigger] sd[j]).0 == q;
                assert(s[j].0 == q);
            }
        }
    }
}

proof fn lemma_filled_of_empty(reference: Seq<(Seq<char>, u64)>)
    ensures
        total(filled(Seq::empty(), reference)) == 0,
    decreases reference.len(),
{
    let none = Seq::<(Seq<char>, u64)>::empty();
    if reference.len() > 0 {
        lemma_filled_of_empty(reference.drop_last());
        assert(filled(none, reference).drop_last() =~= filled(none, reference.drop_last()));
    }
}

/// Series filled over one reference are aligned: each has the keys of the
/// reference, in the same ascending order, and so all have the same length.
pub proof fn lemma_filled_aligned(
    a: Seq<(Seq<char>, u64)>,
    b: Seq<(Seq<char>, u64)>,
    reference: Seq<(Seq<char>, u64)>,
)
    requires
        keys_ascending(reference),
    ensures
        filled(a, reference).len() == filled(b, reference).len(),
        keys_of(filled(a, reference)) == keys_of(reference),
        keys_of(filled(b, reference)) == keys_of(reference),
        keys_ascending(filled(a, reference)),
        keys_ascending(filled(b, reference)),
{
    assert(keys_of(filled(a, reference)) =~= keys_of(reference));
    assert(keys_of(filled(b, reference)) =~= keys_of(reference));
}

/// The sum of the counts that the series of `parts` hold under key `k`.
pub open spec fn sum_at(parts: Seq<Seq<(Seq<char>, u64)>>, k: Seq<char>) -> nat
    decreases parts.len(),
{
    if parts.len() == 0 {
        0
    } else {
        sum_at(parts.drop_last(), k) + count_at(parts.last(), k)
    }
}

/// The sum of the totals of the series of `parts`.
pub open spec fn grand_total(parts: Seq<Seq<(Seq<char>, u64)>>) -> nat
    decreases parts.len(),
{
    if parts.len() == 0 {
        0
    } else {
        grand_total(parts.drop_last()) + total(parts.last())
    }
}

/// Some series of `parts` has key `k`.
pub open spec fn any_has(parts: Seq<Seq<(Seq<char>, u64)>>, k: Seq<char>) -> bool {
    exists|i: int| 0 <= i < parts.len() && has_key(#[trigger] parts[i], k)
}

/// The entries of each series of a list.
pub open spec fn series_views(parts: Seq<DateSeries>) -> Seq<Seq<(Seq<char>, u64)>> {
    Seq::new(parts.len(), |i: int| parts[i]@)
}

proof fn lemma_grand_prefix(parts: Seq<Seq<(Seq<char>, u64)>>, j: int)
    requires
        0 <= j <= parts.len(),
    ensures
        grand_total(parts.take(j)) <= grand_total(parts),
    decreases parts.len() - j,
{
    if j < parts.len() {
        lemma_grand_prefix(parts, j + 1);
        assert(parts.take(j + 1).drop_last() =~= parts.take(j));
    } else {
        assert(parts.take(j) =~= parts);
    }
}

/// The sum of several series: under each key the counts of all of them
/// together. This is how the series of a contributor is made of those of its
/// identities, and the series of the team of those of its contributors.
///
/// Returns `None` exactly where the totals of the series together do not fit
/// in a `u64`.
pub fn merge_all(parts: &[DateSeries]) -> (r: Option<DateSeries>)
    requires
        forall|i: int| 0 <= i < parts@.len() ==> (#[trigger] parts@[i]).wf(),
    ensures
        r is Some == (grand_total(series_views(parts@)) <= u64::MAX),
        r is Some ==> r->0.wf(),
        r is Some ==> total(r->0@) == grand_total(series_views(parts@)),
        r is Some ==> forall|q: Seq<char>| #[trigger]
            has_key(r->0@, q) == any_has(series_views(parts@), q),
        r is Some ==> forall|q: Seq<char>| #[trigger]
            count_at(r->0@, q) == sum_at(series_views(parts@), q),
{
    let ghost ps = series_views(parts@);
    let mut sum = DateSeries::new();
    let mut i: usize = 0;
    proof {
        assert forall|q: Seq<char>| !has_key(sum@, q) by {}
        assert forall|q: Seq<char>| !any_has(ps.take(0), q) by {}
    }
    while i < parts.len()
        invariant
            ps == series_views(parts@),
            forall|i: int| 0 <= i < parts@.len() ==> (#[trigger] parts@[i]).wf(),
            i <= parts@.len(),
            sum.wf(),
            total(sum@) == grand_total(ps.take(i as int)),
            forall|q: Seq<char>| #[trigger] has_key(sum@, q) == any_has(ps.take(i as int), q),
            forall|q: Seq<char>| #[trigger] count_at(sum@, q) == sum_at(ps.take(i as int), q),
        decreases parts@.len() - i,
    {
        let ghost before = sum@;
        proof {
            assert(ps.take(i + 1).drop_last() =~= ps.take(i as int));
            assert(ps.take(i + 1).last() == parts@[i as int]@);
            lemma_grand_prefix(ps, i + 1);
            assert forall|q: Seq<char>|
                any_has(ps.take(i + 1), q) == (any_has(ps.take(i as int), q) || has_key(
                    parts@[i as int]@,
                    q,
                )) by {
                let a = ps.take(i as int);
                let b = ps.take(i + 1);
                if any_has(a, q) {
                    let j = choose|j: int| 0 <= j < a.len() && has_key(#[trigger] a[j], q);
                    assert(b[j] == a[j]);
                }
                if has_key(parts@[i as int]@, q) {
                    assert(b[i as int] == parts@[i as int]@);
                }
                if any_has(b, q) {
                    let j = choose|j: int| 0 <= j < b.len() && has_key(#[trigger] b[j], q);
                    if j < i {
                        assert(a[j] == b[j]);
                    }
                }
            }
        }
        if !sum.merge_from(&parts[i]) {
            return None;
        }
        proof {
            let after = sum@;
            assert forall|q: Seq<char>| #[trigger] has_key(after, q) == any_has(
                ps.take(i + 1),
                q,
            ) by {
                assert(has_key(before, q) == any_has(ps.take(i as int), q));
            }
            assert forall|q: Seq<char>| #[trigger] count_at(after, q) == sum_at(
                ps.take(i + 1),
                q,
            ) by {
                assert(count_at(before, q) == sum_at(ps.take(i as int), q));
            }
        }
        i += 1;
    }
    assert(ps.take(i as int) =~= ps);
    Some(sum)
}

/// One date with its count.
#[derive(Clone, Debug)]
struct Entry {
    key: String,
    count: u64,
}

/// Counts per date key, ascending by key.
#[derive(Clone, Debug)]
pub struct DateSeries {
    entries: Vec<Entry>,
}

impl View for DateSeries {
    type V = Seq<(Seq<char>, u64)>;

    /// The `(key, count)` pairs in ascending key order.
    closed spec fn view(&self) -> Seq<(Seq<char>, u64)> {
        Seq::new(self.entries@.len(), |i: int| (self.entries@[i].key@, self.entries@[i].count))
    }
}

impl DateSeries {
    /// The invariant of the type: see [`is_series`].
    pub open spec fn wf(&self) -> bool {
        is_series(self@)
    }

    /// The series without entries.
    pub fn new() -> (r: Self)
        ensures
            r.wf(),
            r@.len() == 0,
    {
        let r = DateSeries { entries: Vec::new() };
        assert(r@.len() == 0);
        r
    }

    /// A series with the same entries.
    pub fn copy(&self) -> (r: Self)
        ensures
            r@ == self@,
    {
        let mut entries: Vec<Entry> = Vec::new();
        let mut i: usize = 0;
        while i < self.entries.len()
            invariant
                i <= self.entries@.len(),
                entries@.len() == i,
                forall|j: int|
                    0 <= j < i ==> (#[trigger] entries@[j]).key@ == self.entries@[j].key@
                        && entries@[j].count == self.entries@[j].count,
            decreases self.entries@.len() - i,
        {
            entries.push(Entry { key: self.entries[i].key.clone(), count: self.entries[i].count });
            i += 1;
        }
        let r = DateSeries { entries };
        assert(r@ =~= self@);
        r
    }

    /// The number of distinct keys.
    pub fn len(&self) -> (n: usize)
        ensures
            n == self@.len(),
    {
        self.entries.len()
    }

    /// Whether the series has no entry: the "no data" state.
    pub fn is_empty(&self) -> (b: bool)
        ensures
            b == (self@.len() == 0),
    {
        self.entries.len() == 0
    }

    /// The key of entry `i`, counting from the smallest key.
    pub fn key_at(&self, i: usize) -> (k: &String)
        requires
            i < self@.len(),
        ensures
            k@ == self@[i as int].0,
    {
        &self.entries[i].key
    }

    /// The count of entry `i`, counting from the smallest key.
    pub fn value_at(&self, i: usize) -> (c: u64)
        requires
            i < self@.len(),
        ensures
            c == self@[i as int].1,
    {
        self.entries[i].count
    }

    /// The sum of all counts.
    pub fn total(&self) -> (t: u64)
        requires
            self.wf(),
        ensures
            t == total(self@),
    {
        let mut t: u64 = 0;
        let mut i: usize = 0;
        while i < self.entries.len()
            invariant
                i <= self.entries@.len(),
                self.entries@.len() == self@.len(),
                t == total(self@.take(i as int)),
                total(self@) <= u64::MAX,
            decreases self.entries@.len() - i,
        {
            proof {
                let s = self@;
                assert(s.take(i + 1).drop_last() =~= s.take(i as int));
                assert(s =~= s.take(i + 1) + s.skip(i + 1));
                lemma_total_concat(s.take(i + 1), s.skip(i + 1));
            }
            t = t + self.entries[i].count;
            i += 1;
        }
        assert(self@.take(i as int) =~= self@);
        t
    }

    /// The number of keys that sort before `key`: where `key` is, or belongs.
    pub fn position(&self, key: &str) -> (p: usize)
        requires
            self.wf(),
        ensures
            p <= self@.len(),
            forall|j: int| 0 <= j < p ==> precedes((#[trigger] self@[j]).0, key@),
            forall|j: int| p <= j < self@.len() ==> !precedes((#[trigger] self@[j]).0, key@),
    {
        let mut lo: usize = 0;
        let mut hi: usize = self.entries.len();
        while lo < hi
            invariant
                lo <= hi <= self@.len(),
                self.entries@.len() == self@.len(),
                keys_ascending(self@),
                forall|j: int| 0 <= j < lo ==> precedes((#[trigger] self@[j]).0, key@),
                forall|j: int| hi <= j < self@.len() ==> !precedes((#[trigger] self@[j]).0, key@),
            decreases hi - lo,
        {
            let mid = lo + (hi - lo) / 2;
            if str_precedes(self.entries[mid].key.as_str(), key) {
                proof {
                    assert forall|j: int| 0 <= j < mid + 1 implies precedes(
                        (#[trigger] self@[j]).0,
                        key@,
                    ) by {
                        if j < mid {
                            assert(precedes(self@[j].0, self@[mid as int].0));
                            lemma_precedes_transitive(self@[j].0, self@[mid as int].0, key@);
                        }
                    }
                }
                lo = mid + 1;
            } else {
                proof {
                    assert forall|j: int| mid <= j < self@.len() implies !precedes(
                        (#[trigger] self@[j]).0,
                        key@,
                    ) by {
                        if j > mid && precedes(self@[j].0, key@) {
                            assert(precedes(self@[mid as int].0, self@[j].0));
                            lemma_precedes_transitive(self@[mid as int].0, self@[j].0, key@);
                        }
                    }
                }
                hi = mid;
            }
        }
        lo
    }

    /// The count under `key`, if the series has that key.
    pub fn get(&self, key: &str) -> (r: Option<u64>)
        requires
            self.wf(),
        ensures
            r is Some == has_key(self@, key@),
            r is Some ==> r->0 == count_at(self@, key@),
    {
        let p = self.position(key);
        if p < self.entries.len() && str_same(self.entries[p].key.as_str(), key) {
            proof {
                lemma_count_present(self@, p as int);
            }
            Some(self.entries[p].count)
        } else {
            proof {
                self.lemma_absent_at(p as int, key@);
            }
            None
        }
    }

    /// A key that is not at its sorted position is not in the series.
    proof fn lemma_absent_at(&self, p: int, k: Seq<char>)
        requires
            keys_ascending(self@),
            0 <= p <= self@.len(),
            forall|j: int| 0 <= j < p ==> precedes((#[trigger] self@[j]).0, k),
            forall|j: int| p <= j < self@.len() ==> !precedes((#[trigger] self@[j]).0, k),
            p < self@.len() ==> self@[p].0 != k,
        ensures
            !has_key(self@, k),
            forall|j: int| p <= j < self@.len() ==> precedes(k, (#[trigger] self@[j]).0),
    {
        let s = self@;
        assert forall|j: int| p <= j < s.len() implies precedes(k, (#[trigger] s[j]).0) by {
            if s[j].0 == k {
                assert(j > p);
                assert(precedes(s[p].0, s[j].0));
            }
            lemma_precedes_total(k, s[j].0);
        }
        assert forall|j: int| 0 <= j < s.len() implies (#[trigger] s[j]).0 != k by {
            lemma_precedes_irreflexive(k);
        }
    }

    /// Adds `count` under `key`, creating the entry where the key is new.
    /// Returns `false`, leaving the series as it was, where the total would
    /// no longer fit in a `u64`.
    pub fn add(&mut self, key: &str, count: u64) -> (ok: bool)
        requires
            old(self).wf(),
        ensures
            final(self).wf(),
            ok == (total(old(self)@) + count <= u64::MAX),
            !ok ==> final(self)@ == old(self)@,
            ok ==> total(final(self)@) == total(old(self)@) + count,
            ok ==> forall|q: Seq<char>| #[trigger]
                count_at(final(self)@, q) == count_at(old(self)@, q) + if q == key@ {
                    count as nat
                } else {
                    0
                },
            ok ==> forall|q: Seq<char>| #[trigger]
                has_key(final(self)@, q) == (has_key(old(self)@, q) || q == key@),
            ok ==> final(self)@.len() == old(self)@.len() + if has_key(old(self)@, key@) {
                0int
            } else {
                1
            },
    {
        let t = self.total();
        if count > u64::MAX - t {
            return false;
        }
        let p = self.position(key);
        if p < self.entries.len() && str_same(self.entries[p].key.as_str(), key) {
            proof {
                lemma_count_present(self@, p as int);
                lemma_count_le_total(self@, key@);
                lemma_raise_existing(self@, p as int, count);
            }
            let raised = self.entries[p].count + count;
            self.entries[p].count = raised;
            assert(self@ =~= old(self)@.update(p as int, (old(self)@[p as int].0, raised)));
            assert(old(self)@[p as int].0 == key@);
        } else {
            proof {
                self.lemma_absent_at(p as int, key@);
                lemma_insert_new(self@, p as int, key@, count);
            }
            self.entries.insert(p, Entry { key: key.to_owned(), count });
            assert(self@ =~= old(self)@.insert(p as int, (key@, count)));
        }
        true
    }

    /// Gap filling: this series over the keys of `reference`, with 0 under
    /// each key that it lacks. Keys of this series that `reference` lacks
    /// are left out.
    pub fn fill(&self, reference: &DateSeries) -> (r: DateSeries)
        requires
            self.wf(),
            reference.wf(),
        ensures
            r.wf(),
            r@ == filled(self@, reference@),
    {
        let mut entries: Vec<Entry> = Vec::new();
        let mut i: usize = 0;
        while i < reference.entries.len()
            invariant
                self.wf(),
                i <= reference.entries@.len(),
                reference.entries@.len() == reference@.len(),
                entries@.len() == i,
                forall|j: int|
                    0 <= j < i ==> (#[trigger] entries@[j]).key@ == reference@[j].0
                        && entries@[j].count == count_at(self@, reference@[j].0),
            decreases reference.entries@.len() - i,
        {
            let key = &reference.entries[i].key;
            let count = match self.get(key.as_str()) {
                Some(c) => c,
                None => {
                    proof {
                        lemma_count_absent(self@, key@);
                    }
                    0
                },
            };
            entries.push(Entry { key: key.clone(), count });
            i += 1;
        }
        let r = DateSeries { entries };
        proof {
            assert forall|j: int| 0 <= j < reference@.len() implies count_at(
                self@,
                (#[trigger] reference@[j]).0,
            ) <= u64::MAX by {
                lemma_count_le_total(self@, reference@[j].0);
            }
            assert(r@ =~= filled(self@, reference@));
            lemma_filled_total(self@, reference@);
            lemma_filled_aligned(self@, self@, reference@);
        }
        r
    }

    /// Adds every entry of `other` to this series. Returns `false`, leaving
    /// the series as it was, where the total would no longer fit in a `u64`.
    pub fn merge_from(&mut self, other: &DateSeries) -> (ok: bool)
        requires
            old(self).wf(),
            other.wf(),
        ensures
            final(self).wf(),
            ok == (total(old(self)@) + total(other@) <= u64::MAX),
            !ok ==> final(self)@ == old(self)@,
            ok ==> total(final(self)@) == total(old(self)@) + total(other@),
            ok ==> forall|q: Seq<char>| #[trigger]
                count_at(final(self)@, q) == count_at(old(self)@, q) + count_at(other@, q),
            ok ==> forall|q: Seq<char>| #[trigger]
                has_key(final(self)@, q) == (has_key(old(self)@, q) || has_key(other@, q)),
    {
        let mine = self.total();
        let theirs = other.total();
        if theirs > u64::MAX - mine {
            return false;
        }
        let ghost before = self@;
        let ghost o = other@;
        let mut i: usize = 0;
        while i < other.len()
            invariant
                o == other@,
                i <= o.len(),
                self.wf(),
                total(before) + total(o) <= u64::MAX,
                total(self@) == total(before) + total(o.take(i as int)),
                forall|q: Seq<char>| #[trigger]
                    count_at(self@, q) == count_at(before, q) + count_at(o.take(i as int), q),
                forall|q: Seq<char>| #[trigger]
                    has_key(self@, q) == (has_key(before, q) || has_key(o.take(i as int), q)),
            decreases o.len() - i,
        {
            proof {
                lemma_take_step(o, i as int);
            }
            let added = self.add(other.entries[i].key.as_str(), other.entries[i].count);
            assert(added);
            i += 1;
        }
        assert(o.take(i as int) =~= o);
        true
    }
}

/// Filling over a reference that holds every key of the series keeps the
/// count under every key.
pub proof fn lemma_filled_counts(
    s: Seq<(Seq<char>, u64)>,
    reference: Seq<(Seq<char>, u64)>,
    q: Seq<char>,
)
    requires
        keys_ascending(reference),
        total(s) <= u64::MAX,
        forall|k: Seq<char>| has_key(s, k) ==> has_key(reference, k),
    ensures
        has_key(filled(s, reference), q) == has_key(reference, q),
        count_at(filled(s, reference), q) == count_at(s, q),
{
    let f = filled(s, reference);
    lemma_filled_aligned(s, s, reference);
    if has_key(reference, q) {
        let j = choose|j: int| 0 <= j < reference.len() && (#[trigger] reference[j]).0 == q;
        assert(f[j].0 == q);
        lemma_count_present(f, j);
        lemma_count_le_total(s, q);
    } else {
        if has_key(f, q) {
            let j = choose|j: int| 0 <= j < f.len() && (#[trigger] f[j]).0 == q;
            assert(reference[j].0 == q);
        }
        lemma_count_absent(f, q);
        lemma_count_absent(s, q);
    }
}

/// The keys of all the series together, each with the count 0.
fn key_union(parts: &[DateSeries]) -> (reference: DateSeries)
    requires
        forall|i: int| 0 <= i < parts@.len() ==> (#[trigger] parts@[i]).wf(),
    ensures
        reference.wf(),
        forall|q: Seq<char>| #[trigger]
            has_key(reference@, q) == any_has(series_views(parts@), q),
{
    let ghost ps = series_views(parts@);
    let mut reference = DateSeries::new();
    let mut i: usize = 0;
    proof {
        assert forall|q: Seq<char>| !has_key(reference@, q) by {}
        assert forall|q: Seq<char>| !any_has(ps.take(0), q) by {}
    }
    while i < parts.len()
        invariant
            ps == series_views(parts@),
            forall|i: int| 0 <= i < parts@.len() ==> (#[trigger] parts@[i]).wf(),
            i <= parts@.len(),
            reference.wf(),
            total(reference@) == 0,
            forall|q: Seq<char>| #[trigger]
                has_key(reference@, q) == any_has(ps.take(i as int), q),
        decreases parts@.len() - i,
    {
        let part = &parts[i];
        let ghost p = part@;
        let mut k: usize = 0;
        proof {
            assert forall|q: Seq<char>| !has_key(p.take(0), q) by {}
        }
        while k < part.len()
            invariant
                p == part@,
                k <= p.len(),
                reference.wf(),
                total(reference@) == 0,
                forall|q: Seq<char>| #[trigger]
                    has_key(reference@, q) == (any_has(ps.take(i as int), q) || has_key(
                        p.take(k as int),
                        q,
                    )),
            decreases p.len() - k,
        {
            let ghost before = reference@;
            proof {
                lemma_take_step(p, k as int);
            }
            let added = reference.add(part.key_at(k).as_str(), 0);
            assert(added);
            proof {
                assert forall|q: Seq<char>| #[trigger]
                    has_key(reference@, q) == (any_has(ps.take(i as int), q) || has_key(
                        p.take(k + 1),
                        q,
                    )) by {
                    assert(has_key(before, q) == (any_has(ps.take(i as int), q) || has_key(
                        p.take(k as int),
                        q,
                    )));
                }
            }
            k += 1;
        }
        proof {
            assert(p.take(k as int) =~= p);
            assert forall|q: Seq<char>| #[trigger]
                has_key(reference@, q) == any_has(ps.take(i + 1), q) by {
                let a = ps.take(i as int);
                let b = ps.take(i + 1);
                if any_has(a, q) {
                    let j = choose|j: int| 0 <= j < a.len() && has_key(#[trigger] a[j], q);
                    assert(b[j] == a[j]);
                }
                if has_key(p, q) {
                    assert(b[i as int] == p);
                }
                if any_has(b, q) {
                    let j = choose|j: int| 0 <= j < b.len() && has_key(#[trigger] b[j], q);
                    if j < i {
                        assert(a[j] == b[j]);
                    }
                }
            }
        }
        i += 1;
    }
    assert(ps.take(i as int) =~= ps);
    reference
}

/// Gap filling for series that are shown together: every series over one
/// list of keys, the keys of all of them in ascending order, with 0 under
/// each key that a series lacks. The results have the same length and the
/// same keys at the same places, and each keeps its counts and its total.
pub fn align_all(parts: &[DateSeries]) -> (r: Vec<DateSeries>)
    requires
        forall|i: int| 0 <= i < parts@.len() ==> (#[trigger] parts@[i]).wf(),
    ensures
        r@.len() == parts@.len(),
        forall|i: int| 0 <= i < r@.len() ==> (#[trigger] r@[i]).wf(),
        forall|i: int, j: int|
            0 <= i < r@.len() && 0 <= j < r@.len() ==> keys_of((#[trigger] r@[i])@) == keys_of(
                (#[trigger] r@[j])@,
            ),
        forall|i: int| 0 <= i < r@.len() ==> total((#[trigger] r@[i])@) == total(parts@[i]@),
        forall|i: int, q: Seq<char>|
            0 <= i < r@.len() ==> #[trigger] has_key(r@[i]@, q) == any_has(
                series_views(parts@),
                q,
            ),
        forall|i: int, q: Seq<char>|
            0 <= i < r@.len() ==> #[trigger] count_at(r@[i]@, q) == count_at(parts@[i]@, q),
{
    let reference = key_union(parts);
    let ghost ps = series_views(parts@);
    let mut r: Vec<DateSeries> = Vec::new();
    let mut i: usize = 0;
    while i < parts.len()
        invariant
            ps == series_views(parts@),
            forall|i: int| 0 <= i < parts@.len() ==> (#[trigger] parts@[i]).wf(),
            reference.wf(),
            forall|q: Seq<char>| #[trigger] has_key(reference@, q) == any_has(ps, q),
            i <= parts@.len(),
            r@.len() == i,
            forall|k: int| 0 <= k < i ==> (#[trigger] r@[k])@ == filled(parts@[k]@, reference@),
            forall|k: int| 0 <= k < i ==> (#[trigger] r@[k]).wf(),
        decreases parts@.len() - i,
    {
        let aligned = parts[i].fill(&reference);
        r.push(aligned);
        i += 1;
    }
    proof {
        assert forall|i: int| 0 <= i < r@.len() implies total((#[trigger] r@[i])@) == total(
            parts@[i]@,
        ) by {
            lemma_covered(ps, i, reference@);
            lemma_filled_total(parts@[i]@, reference@);
        }
        assert forall|i: int, q: Seq<char>| 0 <= i < r@.len() implies #[trigger] has_key(
            r@[i]@,
            q,
        ) == any_has(ps, q) by {
            lemma_covered(ps, i, reference@);
            lemma_filled_counts(parts@[i]@, reference@, q);
        }
        assert forall|i: int, q: Seq<char>| 0 <= i < r@.len() implies #[trigger] count_at(
            r@[i]@,
            q,
        ) == count_at(parts@[i]@, q) by {
            lemma_covered(ps, i, reference@);
            lemma_filled_counts(parts@[i]@, reference@, q);
        }
        assert forall|i: int, j: int| 0 <= i < r@.len() && 0 <= j < r@.len() implies keys_of(
            (#[trigger] r@[i])@,
        ) == keys_of((#[trigger] r@[j])@) by {
            lemma_filled_aligned(parts@[i]@, parts@[j]@, reference@);
        }
    }
    r
}

/// A reference that holds the keys of all parts holds the keys of each.
proof fn lemma_covered(
    ps: Seq<Seq<(Seq<char>, u64)>>,
    i: int,
    reference: Seq<(Seq<char>, u64)>,
)
    requires
        0 <= i < ps.len(),
        forall|q: Seq<char>| #[trigger] has_key(reference, q) == any_has(ps, q),
    ensures
        forall|k: Seq<char>| has_key(ps[i], k) ==> has_key(reference, k),
{
    assert forall|k: Seq<char>| has_key(ps[i], k) implies has_key(reference, k) by {
        assert(any_has(ps, k));
    }
}

} // verus!
