use git_stats::series::{align_all, merge_all, DateSeries};
use git_stats::text::{str_precedes, str_same};

fn series_of(entries: &[(&str, u64)]) -> DateSeries {
    let mut s = DateSeries::new();
    for (k, v) in entries {
        assert!(s.add(k, *v));
    }
    s
}

fn entries_of(s: &DateSeries) -> Vec<(String, u64)> {
    (0..s.len()).map(|i| (s.key_at(i).clone(), s.value_at(i))).collect()
}

fn pairs(entries: &[(&str, u64)]) -> Vec<(String, u64)> {
    entries.iter().map(|(k, v)| (k.to_string(), *v)).collect()
}

#[test]
fn new_series_is_empty() {
    let s = DateSeries::new();
    assert!(s.is_empty());
    assert_eq!(s.len(), 0);
    assert_eq!(s.total(), 0);
    assert_eq!(s.get("2025-01-01"), None);
}

#[test]
fn add_keeps_keys_ascending_and_unique() {
    let s = series_of(&[("2025-03-01", 1), ("2025-01-01", 2), ("2025-02-01", 3), ("2025-01-01", 4)]);
    assert_eq!(
        entries_of(&s),
        pairs(&[("2025-01-01", 6), ("2025-02-01", 3), ("2025-03-01", 1)])
    );
    assert_eq!(s.total(), 10);
    assert_eq!(s.get("2025-01-01"), Some(6));
    assert_eq!(s.get("2025-01-02"), None);
    assert!(!s.is_empty());
}

#[test]
fn add_of_zero_creates_the_entry() {
    let s = series_of(&[("2025-01-01", 0)]);
    assert_eq!(entries_of(&s), pairs(&[("2025-01-01", 0)]));
    assert_eq!(s.get("2025-01-01"), Some(0));
}

#[test]
fn add_refuses_what_does_not_fit() {
    let mut s = series_of(&[("a", u64::MAX - 1), ("b", 1)]);
    assert!(!s.add("c", 1));
    assert!(!s.add("a", 1));
    assert_eq!(entries_of(&s), pairs(&[("a", u64::MAX - 1), ("b", 1)]));
    assert!(s.add("c", 0));
    assert_eq!(s.total(), u64::MAX);
}

#[test]
fn position_counts_the_smaller_keys() {
    let s = series_of(&[("b", 1), ("d", 1), ("f", 1)]);
    assert_eq!(s.position("a"), 0);
    assert_eq!(s.position("b"), 0);
    assert_eq!(s.position("c"), 1);
    assert_eq!(s.position("f"), 2);
    assert_eq!(s.position("g"), 3);
}

#[test]
fn copy_has_the_same_entries() {
    let s = series_of(&[("2025-01-02", 5), ("2025-01-01", 7)]);
    assert_eq!(entries_of(&s.copy()), entries_of(&s));
}

#[test]
fn merge_sums_collisions() {
    let mut a = series_of(&[("2025-01-01", 2), ("2025-01-03", 1)]);
    let b = series_of(&[("2025-01-01", 5), ("2025-01-02", 4)]);
    assert!(a.merge_from(&b));
    assert_eq!(
        entries_of(&a),
        pairs(&[("2025-01-01", 7), ("2025-01-02", 4), ("2025-01-03", 1)])
    );
    assert_eq!(a.total(), 12);
}

#[test]
fn merge_refuses_what_does_not_fit() {
    let mut a = series_of(&[("x", u64::MAX)]);
    let b = series_of(&[("y", 1)]);
    assert!(!a.merge_from(&b));
    assert_eq!(entries_of(&a), pairs(&[("x", u64::MAX)]));
}

#[test]
fn merge_all_is_the_sum_of_its_parts() {
    let parts = vec![
        series_of(&[("2025-01-01", 1)]),
        series_of(&[]),
        series_of(&[("2025-01-01", 2), ("2025-01-05", 3)]),
    ];
    let sum = merge_all(&parts).expect("fits");
    assert_eq!(entries_of(&sum), pairs(&[("2025-01-01", 3), ("2025-01-05", 3)]));
    assert!(merge_all(&[]).expect("fits").is_empty());
    let too_much = vec![series_of(&[("a", u64::MAX)]), series_of(&[("a", 1)])];
    assert!(merge_all(&too_much).is_none());
}

#[test]
fn fill_aligns_every_series_to_the_reference() {
    let alice = series_of(&[("2025-01-01", 2), ("2025-01-08", 1)]);
    let bob = series_of(&[("2025-01-05", 4)]);
    let mut team = alice.copy();
    assert!(team.merge_from(&bob));
    let a = alice.fill(&team);
    let b = bob.fill(&team);
    let t = team.fill(&team);
    assert_eq!(
        entries_of(&a),
        pairs(&[("2025-01-01", 2), ("2025-01-05", 0), ("2025-01-08", 1)])
    );
    assert_eq!(
        entries_of(&b),
        pairs(&[("2025-01-01", 0), ("2025-01-05", 4), ("2025-01-08", 0)])
    );
    assert_eq!(entries_of(&t), entries_of(&team));
    assert_eq!(a.len(), b.len());
    assert_eq!(a.len(), t.len());
    for i in 0..a.len() {
        assert_eq!(a.key_at(i), b.key_at(i));
        assert_eq!(a.key_at(i), t.key_at(i));
    }
    assert_eq!(a.total(), alice.total());
    assert_eq!(b.total(), bob.total());
}

#[test]
fn fill_leaves_out_keys_that_the_reference_lacks() {
    let s = series_of(&[("2025-01-01", 2), ("2025-01-02", 3)]);
    let reference = series_of(&[("2025-01-02", 100), ("2025-01-03", 100)]);
    assert_eq!(
        entries_of(&s.fill(&reference)),
        pairs(&[("2025-01-02", 3), ("2025-01-03", 0)])
    );
    assert!(s.fill(&DateSeries::new()).is_empty());
}

#[test]
fn keys_are_ordered_by_code_point() {
    assert!(str_precedes("2025-01-01", "2025-01-02"));
    assert!(str_precedes("2024-12-31", "2025-01-01"));
    assert!(!str_precedes("2025-01-01", "2025-01-01"));
    assert!(str_precedes("", "a"));
    assert!(!str_precedes("a", ""));
    assert!(str_precedes("ab", "abc"));
    assert!(str_precedes("B", "a"));
    assert!(str_precedes("z", "\u{e9}"));
    assert!(str_precedes("\u{e9}", "\u{4e2d}"));
    assert_eq!(str_precedes("Zed", "alice"), "Zed" < "alice");
    assert!(str_same("abc", "abc"));
    assert!(!str_same("abc", "abd"));
    assert!(!str_same("abc", "ab"));
}

#[test]
fn aligned_series_share_their_keys() {
    let parts = vec![
        series_of(&[("2025-01-01", 2), ("2025-01-08", 1)]),
        series_of(&[("2025-01-05", 4)]),
        series_of(&[]),
        series_of(&[("2024-12-31", 9), ("2025-01-08", 7)]),
    ];
    let aligned = align_all(&parts);
    assert_eq!(aligned.len(), 4);
    let keys = ["2024-12-31", "2025-01-01", "2025-01-05", "2025-01-08"];
    let counts = [[0, 2, 0, 1], [0, 0, 4, 0], [0, 0, 0, 0], [9, 0, 0, 7]];
    for (series, expected) in aligned.iter().zip(counts.iter()) {
        assert_eq!(series.len(), keys.len());
        for i in 0..keys.len() {
            assert_eq!(series.key_at(i), keys[i]);
            assert_eq!(series.value_at(i), expected[i]);
        }
    }
    for (series, part) in aligned.iter().zip(parts.iter()) {
        assert_eq!(series.total(), part.total());
    }
    assert!(align_all(&[]).is_empty());
    let alone = align_all(&[series_of(&[("b", 1), ("a", u64::MAX - 1)])]);
    assert_eq!(entries_of(&alone[0]), pairs(&[("a", u64::MAX - 1), ("b", 1)]));
    let full = align_all(&[series_of(&[("a", u64::MAX)]), series_of(&[("b", u64::MAX)])]);
    assert_eq!(entries_of(&full[0]), pairs(&[("a", u64::MAX), ("b", 0)]));
    assert_eq!(entries_of(&full[1]), pairs(&[("a", 0), ("b", u64::MAX)]));
}
