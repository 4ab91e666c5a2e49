use ride_aggregator::aggregate::{Aggregates, MonthlyRides};
use ride_aggregator::calendar::{month_label_of, year_month_of};
use ride_aggregator::decimal::{parse_integer, ParsedInteger};
use ride_aggregator::record::{classify_record, RecordError, RideRecord};
use ride_aggregator::request::{requested_identifiers, split_identifiers, RequestError};

fn trip(start: &str, distance: &str) -> RideRecord {
    RideRecord {
        ride_type: Some("trip".to_string()),
        ride_start: Some(start.to_string()),
        ride_distance: Some(distance.to_string()),
    }
}

fn record(kind: Option<&str>, start: Option<&str>, distance: Option<&str>) -> RideRecord {
    RideRecord {
        ride_type: kind.map(|s| s.to_string()),
        ride_start: start.map(|s| s.to_string()),
        ride_distance: distance.map(|s| s.to_string()),
    }
}

fn run(batches: &[(&str, Vec<RideRecord>)], filter: Option<&str>) -> Result<Vec<MonthlyRides>, RecordError> {
    let filter = filter.map(|s| s.to_string());
    let mut agg = Aggregates::new();
    for (imei, records) in batches {
        agg.add_records(&imei.to_string(), records, &filter)?;
    }
    let mut buckets = agg.into_buckets();
    buckets.sort_by(|a, b| (&a.imei, &a.ride_month).cmp(&(&b.imei, &b.ride_month)));
    Ok(buckets)
}

fn total(bucket: &MonthlyRides) -> f64 {
    bucket.distances.iter().map(|d| d.parse::<f64>().unwrap_or(0.0)).sum()
}

fn shape(buckets: &[MonthlyRides]) -> Vec<(String, String, Vec<String>)> {
    buckets
        .iter()
        .map(|b| (b.imei.clone(), b.ride_month.clone(), b.distances.clone()))
        .collect()
}

fn strings(items: &[&str]) -> Vec<String> {
    items.iter().map(|s| s.to_string()).collect()
}

#[test]
fn empty_identifier_list_is_refused() {
    let r = requested_identifiers("");
    assert_eq!(r, Err(RequestError::EmptyIdentifiers));
    assert_eq!(RequestError::EmptyIdentifiers.message(), "IMEI cannot be empty");
}

#[test]
fn identifiers_split_at_commas_keeping_empty_pieces() {
    assert_eq!(requested_identifiers("111,,222").unwrap(), strings(&["111", "", "222"]));
    assert_eq!(requested_identifiers("111").unwrap(), strings(&["111"]));
    assert_eq!(split_identifiers(",a,"), strings(&["", "a", ""]));
    assert_eq!(split_identifiers(""), strings(&[""]));
}

#[test]
fn empty_identifier_between_commas_yields_no_buckets() {
    let ids = requested_identifiers("111,,222").unwrap();
    let batches: Vec<(&str, Vec<RideRecord>)> = ids.iter().map(|id| (id.as_str(), Vec::new())).collect();
    assert!(run(&batches, None).unwrap().is_empty());
}

#[test]
fn no_records_give_no_buckets() {
    let batches = vec![("111", Vec::new()), ("222", Vec::new())];
    assert!(run(&batches, None).unwrap().is_empty());
    assert!(run(&batches, Some("2023-11")).unwrap().is_empty());
}

#[test]
fn single_trip_scenario() {
    let buckets = run(&[("111", vec![trip("1700000000", "12.5")])], None).unwrap();
    assert_eq!(shape(&buckets), vec![("111".to_string(), "2023-11".to_string(), strings(&["12.5"]))]);
    assert_eq!(total(&buckets[0]), 12.5);
}

#[test]
fn only_exact_trip_tag_counts() {
    let records = vec![
        record(Some("Trip"), Some("1700000000"), Some("1.0")),
        record(Some("TRIP"), Some("1700000000"), Some("2.0")),
        record(Some("ride"), Some("1700000000"), Some("3.0")),
        record(None, Some("1700000000"), Some("4.0")),
        record(Some("trip "), None, None),
        record(Some("idle"), Some("not a number"), None),
        trip("1700000000", "5.0"),
    ];
    let buckets = run(&[("111", records)], None).unwrap();
    assert_eq!(shape(&buckets), vec![("111".to_string(), "2023-11".to_string(), strings(&["5.0"]))]);
}

#[test]
fn same_month_distances_are_summed() {
    let records = vec![
        trip("1700000000", "12.5"),
        trip("1700086400", "7.5"),
        trip("1701400000", "3"),
    ];
    let buckets = run(&[("111", records)], None).unwrap();
    assert_eq!(
        shape(&buckets),
        vec![
            ("111".to_string(), "2023-11".to_string(), strings(&["12.5", "7.5"])),
            ("111".to_string(), "2023-12".to_string(), strings(&["3"])),
        ]
    );
    assert_eq!(total(&buckets[0]), 20.0);
    assert_eq!(total(&buckets[1]), 3.0);
}

#[test]
fn record_order_does_not_change_totals() {
    let texts = ["0.1", "0.2", "0.3", "1e16", "-1e16", "7"];
    let forward: Vec<RideRecord> = texts.iter().map(|d| trip("1700000000", d)).collect();
    let backward: Vec<RideRecord> = texts.iter().rev().map(|d| trip("1700000000", d)).collect();
    let a = run(&[("111", forward)], None).unwrap();
    let b = run(&[("111", backward)], None).unwrap();
    assert_eq!(shape(&a), shape(&b));
    assert_eq!(a[0].distances, strings(&["-1e16", "0.1", "0.2", "0.3", "1e16", "7"]));
    assert_eq!(total(&a[0]).to_bits(), total(&b[0]).to_bits());
}

#[test]
fn bucket_distances_come_sorted() {
    let records = vec![trip("1700000000", "b"), trip("1700000000", "ab"), trip("1700000000", "a"), trip("1700000000", "B")];
    let buckets = run(&[("111", records)], None).unwrap();
    assert_eq!(buckets[0].distances, strings(&["B", "a", "ab", "b"]));
}

#[test]
fn devices_keep_separate_buckets() {
    let batches = vec![
        ("111", vec![trip("1700000000", "1")]),
        ("222", vec![trip("1700000000", "2")]),
        ("111", vec![trip("1700000100", "3")]),
    ];
    let buckets = run(&batches, None).unwrap();
    assert_eq!(
        shape(&buckets),
        vec![
            ("111".to_string(), "2023-11".to_string(), strings(&["1", "3"])),
            ("222".to_string(), "2023-11".to_string(), strings(&["2"])),
        ]
    );
}

#[test]
fn years_outside_window_never_count() {
    let records = vec![
        trip("1650000000", "1"),
        trip("1740000000", "2"),
        trip("1735669800", "3"),
        trip("0", "4"),
        record(Some("trip"), Some("1650000000"), None),
    ];
    assert!(run(&[("111", records)], None).unwrap().is_empty());
}

#[test]
fn window_edges_follow_the_reporting_offset() {
    let records = vec![
        trip("1672527600", "1"),
        trip("1704047399", "2"),
        trip("1704047400", "3"),
        trip("1735669799", "4"),
    ];
    let buckets = run(&[("111", records)], None).unwrap();
    assert_eq!(
        shape(&buckets),
        vec![
            ("111".to_string(), "2023-01".to_string(), strings(&["1"])),
            ("111".to_string(), "2023-12".to_string(), strings(&["2"])),
            ("111".to_string(), "2024-01".to_string(), strings(&["3"])),
            ("111".to_string(), "2024-12".to_string(), strings(&["4"])),
        ]
    );
}

#[test]
fn month_filter_keeps_only_its_month() {
    let records = vec![trip("1700000000", "1"), trip("1701400000", "2"), trip("1704047400", "3")];
    let buckets = run(&[("111", records)], Some("2023-12")).unwrap();
    assert_eq!(shape(&buckets), vec![("111".to_string(), "2023-12".to_string(), strings(&["2"]))]);
}

#[test]
fn month_filter_with_no_match_drops_everything() {
    let records = vec![trip("1700000000", "1"), record(Some("trip"), Some("1700000000"), None)];
    assert!(run(&[("111", records)], Some("2023-1")).unwrap().is_empty());
}

#[test]
fn unparseable_distance_is_kept_and_sums_as_zero() {
    let records = vec![trip("1700000000", "abc"), trip("1700000000", "2.25")];
    let buckets = run(&[("111", records)], None).unwrap();
    assert_eq!(shape(&buckets), vec![("111".to_string(), "2023-11".to_string(), strings(&["2.25", "abc"]))]);
    assert_eq!(total(&buckets[0]), 2.25);
}

#[test]
fn missing_start_is_fatal() {
    let r = run(&[("111", vec![trip("1700000000", "1"), record(Some("trip"), None, Some("1"))])], None);
    assert_eq!(r.err(), Some(RecordError::MissingStart));
}

#[test]
fn malformed_start_is_fatal() {
    for bad in ["abc", "", "+", "-", "1.5", " 1", "--5"] {
        let r = run(&[("111", vec![trip(bad, "1")])], None);
        assert_eq!(r.err(), Some(RecordError::MalformedStart), "start {:?}", bad);
    }
}

#[test]
fn negative_and_far_starts_are_dropped() {
    let starts = [
        "-1",
        "-5",
        "-9223372036854775808",
        "-99999999999999999999",
        "9223372036854775807",
        "18446744073709551615",
        "99999999999999999999999",
    ];
    for start in starts {
        let records = vec![record(Some("trip"), Some(start), None), trip("1700000000", "1")];
        let buckets = run(&[("111", records)], None).unwrap();
        assert_eq!(
            shape(&buckets),
            vec![("111".to_string(), "2023-11".to_string(), strings(&["1"]))],
            "start {:?}",
            start
        );
    }
}

#[test]
fn missing_distance_is_fatal_only_inside_window() {
    let r = run(&[("111", vec![record(Some("trip"), Some("1700000000"), None)])], None);
    assert_eq!(r.err(), Some(RecordError::MissingDistance));
}

#[test]
fn failed_batch_adds_nothing() {
    let filter = None;
    let mut agg = Aggregates::new();
    agg.add_records(&"111".to_string(), &vec![trip("1700000000", "1")], &filter).unwrap();
    let bad = vec![trip("1700000000", "2"), record(Some("trip"), Some("x"), Some("3"))];
    assert_eq!(agg.add_records(&"111".to_string(), &bad, &filter), Err(RecordError::MalformedStart));
    let buckets = agg.into_buckets();
    assert_eq!(shape(&buckets), vec![("111".to_string(), "2023-11".to_string(), strings(&["1"]))]);
}

#[test]
fn add_opens_then_extends_a_bucket() {
    let mut agg = Aggregates::new();
    let imei = "111".to_string();
    let month = "2024-02".to_string();
    agg.add(&imei, &month, "1".to_string());
    agg.add(&imei, &month, "2".to_string());
    agg.add(&imei, &"2024-03".to_string(), "3".to_string());
    let mut buckets = agg.into_buckets();
    buckets.sort_by(|a, b| a.ride_month.cmp(&b.ride_month));
    assert_eq!(
        shape(&buckets),
        vec![
            ("111".to_string(), "2024-02".to_string(), strings(&["1", "2"])),
            ("111".to_string(), "2024-03".to_string(), strings(&["3"])),
        ]
    );
}

#[test]
fn classify_reports_month_and_distance() {
    let c = classify_record(&trip("1700000000", "12.5"), &None).unwrap().unwrap();
    assert_eq!(c.ride_month, "2023-11");
    assert_eq!(c.distance, "12.5");
    assert!(classify_record(&trip("1700000000", "12.5"), &Some("2023-10".to_string())).unwrap().is_none());
}

#[test]
fn calendar_month_in_reporting_offset() {
    assert_eq!(year_month_of(1700000000), Some((2023, 11)));
    assert_eq!(year_month_of(1704047399), Some((2023, 12)));
    assert_eq!(year_month_of(1704047400), Some((2024, 1)));
    assert_eq!(year_month_of(0), Some((1970, 1)));
    assert_eq!(year_month_of(-1), Some((1970, 1)));
    assert_eq!(year_month_of(i64::MAX), None);
    assert_eq!(year_month_of(i64::MIN), None);
}

#[test]
fn month_labels_are_zero_padded() {
    assert_eq!(month_label_of(2023, 11), "2023-11");
    assert_eq!(month_label_of(2024, 1), "2024-01");
    assert_eq!(month_label_of(7, 9), "0007-09");
}

#[test]
fn integer_parse_follows_std_where_it_fits() {
    assert_eq!(parse_integer("1700000000"), ParsedInteger::Fits(1700000000));
    assert_eq!(parse_integer("+42"), ParsedInteger::Fits(42));
    assert_eq!(parse_integer("-42"), ParsedInteger::Fits(-42));
    assert_eq!(parse_integer("007"), ParsedInteger::Fits(7));
    assert_eq!(parse_integer("9223372036854775807"), ParsedInteger::Fits(i64::MAX));
    assert_eq!(parse_integer("-9223372036854775808"), ParsedInteger::Fits(i64::MIN));
    assert_eq!(parse_integer("9223372036854775808"), ParsedInteger::OutOfRange);
    assert_eq!(parse_integer("-9223372036854775809"), ParsedInteger::OutOfRange);
    assert_eq!(parse_integer("123456789012345678901234567890"), ParsedInteger::OutOfRange);
    assert_eq!(parse_integer("123456789012345678901234567890x"), ParsedInteger::NotInteger);
    assert_eq!(parse_integer(""), ParsedInteger::NotInteger);
    assert_eq!(parse_integer("+"), ParsedInteger::NotInteger);
    assert_eq!(parse_integer("-"), ParsedInteger::NotInteger);
    assert_eq!(parse_integer(" 1"), ParsedInteger::NotInteger);
    assert_eq!(parse_integer("1x"), ParsedInteger::NotInteger);
    for s in ["0", "9", "12345", "+0", "-0", "-99999999999"] {
        assert_eq!(parse_integer(s), ParsedInteger::Fits(s.parse::<i64>().unwrap()));
    }
}
