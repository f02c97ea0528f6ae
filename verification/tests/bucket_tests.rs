use git_stats::bucket::{bucket, bucket_key_of, Period};
use git_stats::series::DateSeries;

fn series_of(entries: &[(&str, u64)]) -> DateSeries {
    let mut s = DateSeries::new();
    for (k, v) in entries {
        assert!(s.add(k, *v));
    }
    s
}

fn entries_of(s: &DateSeries) -> Vec<(String, u64)> {
    (0..s.len()).map(|i| (s.key_at(i).clone(), s.value_at(i))).collect()
}

fn pairs(entries: &[(&str, u64)]) -> Vec<(String, u64)> {
    entries.iter().map(|(k, v)| (k.to_string(), *v)).collect()
}

#[test]
fn week_buckets_of_three_dates() {
    let d = series_of(&[("2025-01-01", 2), ("2025-01-05", 1), ("2025-01-08", 3)]);
    let b = bucket(&d, Period::Week);
    assert_eq!(b.len(), 2);
    assert_eq!(b.value_at(0), 3);
    assert_eq!(b.value_at(1), 3);
    assert_eq!(bucket_key_of("2025-01-01", Period::Week), bucket_key_of("2025-01-05", Period::Week));
    assert_eq!(entries_of(&b), pairs(&[("2025-01-00", 3), ("2025-01-07", 3)]));
    assert_eq!(b.total(), 6);
    assert_eq!(b.total(), d.total());
}

#[test]
fn bucketing_loses_nothing() {
    let d = series_of(&[
        ("2024-12-30", 5),
        ("2025-01-01", 2),
        ("2025-01-05", 1),
        ("2025-01-08", 3),
        ("2025-01-31", 7),
        ("2025-02-14", 11),
        ("junk", 13),
    ]);
    for period in [Period::Day, Period::ThreeDays, Period::Week, Period::Month, Period::Year] {
        let b = bucket(&d, period);
        assert_eq!(b.total(), 42);
        for i in 1..b.len() {
            assert!(b.key_at(i - 1) < b.key_at(i));
        }
    }
}

#[test]
fn day_buckets_are_the_series_itself() {
    let d = series_of(&[("2025-01-08", 3), ("2025-01-01", 2), ("2025-01-05", 1)]);
    let b = bucket(&d, Period::Day);
    assert_eq!(entries_of(&b), entries_of(&d));
}

#[test]
fn empty_series_gives_empty_buckets() {
    let d = DateSeries::new();
    for period in [Period::Day, Period::Week, Period::Year] {
        assert!(bucket(&d, period).is_empty());
    }
}

#[test]
fn buckets_start_again_every_month() {
    let d = series_of(&[("2025-01-29", 1), ("2025-01-31", 2), ("2025-02-01", 4), ("2025-02-02", 8)]);
    let b = bucket(&d, Period::Week);
    assert_eq!(entries_of(&b), pairs(&[("2025-01-28", 3), ("2025-02-00", 12)]));
    let m = bucket(&d, Period::Month);
    assert_eq!(
        entries_of(&m),
        pairs(&[("2025-01-00", 1), ("2025-01-30", 2), ("2025-02-00", 12)])
    );
    let y = bucket(&d, Period::Year);
    assert_eq!(entries_of(&y), pairs(&[("2025-01-00", 3), ("2025-02-00", 12)]));
}

#[test]
fn bucket_key_examples() {
    assert_eq!(bucket_key_of("2025-03-31", Period::Month), "2025-03-30");
    assert_eq!(bucket_key_of("2025-03-29", Period::Month), "2025-03-00");
    assert_eq!(bucket_key_of("2025-03-29", Period::Year), "2025-03-00");
    assert_eq!(bucket_key_of("2025-03-29", Period::ThreeDays), "2025-03-27");
    assert_eq!(bucket_key_of("2025-03-09", Period::ThreeDays), "2025-03-09");
    assert_eq!(bucket_key_of("2025-03-08", Period::Week), "2025-03-07");
    assert_eq!(bucket_key_of("2025-03-29", Period::Day), "2025-03-29");
    assert_eq!(bucket_key_of("not a date", Period::Week), "not a date");
    assert_eq!(bucket_key_of("2025-03-xy", Period::Week), "2025-03-xy");
    assert_eq!(bucket_key_of("2025/03/29", Period::Week), "2025/03/29");
    assert_eq!(bucket_key_of("abcd-ef-29", Period::Week), "abcd-ef-28");
}

#[test]
fn keys_without_a_day_are_their_own_buckets() {
    let d = series_of(&[("2025-01-05", 1), ("2025-01-06", 2), ("2025-01-0x", 4)]);
    let b = bucket(&d, Period::Week);
    assert_eq!(entries_of(&b), pairs(&[("2025-01-00", 3), ("2025-01-0x", 4)]));
}

#[test]
fn periods_by_length() {
    assert_eq!(Period::from_days(1), Some(Period::Day));
    assert_eq!(Period::from_days(3), Some(Period::ThreeDays));
    assert_eq!(Period::from_days(7), Some(Period::Week));
    assert_eq!(Period::from_days(30), Some(Period::Month));
    assert_eq!(Period::from_days(365), Some(Period::Year));
    assert_eq!(Period::from_days(0), None);
    assert_eq!(Period::from_days(2), None);
    assert_eq!(Period::from_days(14), None);
    for period in [Period::Day, Period::ThreeDays, Period::Week, Period::Month, Period::Year] {
        assert_eq!(Period::from_days(period.days()), Some(period));
    }
}
