use bench_chart::grouping::group_records;
use bench_chart::json::load_data;
use bench_chart::loader::{load_events, EventFields};
use bench_chart::record::{
    group_key, parse_duration, parse_number, record_from_fields, split_id, throughput_of, BenchRecord,
    LoadError,
};

fn event(reason: &str, id: &str, estimate: &str) -> EventFields {
    EventFields {
        reason: Some(reason.to_string()),
        id: Some(id.to_string()),
        estimate: Some(estimate.to_string()),
    }
}

fn rec(name: &str, variant: &str, bytes: u32, t: u64) -> BenchRecord {
    BenchRecord { bench_name: name.to_string(), variant: variant.to_string(), num_bytes: bytes, throughput: t }
}

#[test]
fn parse_number_reads_digits() {
    assert_eq!(parse_number("1024", u32::MAX as u64), Some(1024));
    assert_eq!(parse_number("0", u32::MAX as u64), Some(0));
    assert_eq!(parse_number("", u32::MAX as u64), None);
    assert_eq!(parse_number("12a", u32::MAX as u64), None);
    assert_eq!(parse_number("4294967295", u32::MAX as u64), Some(4294967295));
    assert_eq!(parse_number("4294967296", u32::MAX as u64), None);
}

#[test]
fn split_id_takes_three_components() {
    let (a, b, c) = split_id("copy/fast/1024").unwrap();
    assert_eq!((a.as_str(), b.as_str(), c.as_str()), ("copy", "fast", "1024"));
    let (a, b, c) = split_id("copy/fast/1024/extra").unwrap();
    assert_eq!((a.as_str(), b.as_str(), c.as_str()), ("copy", "fast", "1024"));
    assert!(split_id("copy/fast").is_none());
    assert!(split_id("copy").is_none());
}

#[test]
fn parse_duration_reads_decimals() {
    assert_eq!(parse_duration("1000.0"), Some((10000, -1)));
    assert_eq!(parse_duration("2000"), Some((2000, 0)));
    assert_eq!(parse_duration("0.25"), Some((25, -2)));
    assert_eq!(parse_duration("1."), None);
    assert_eq!(parse_duration(".5"), None);
    assert_eq!(parse_duration("-3.0"), None);
    assert_eq!(parse_duration("1e"), None);
    assert_eq!(parse_duration("1x5"), None);
}

#[test]
fn throughput_is_bytes_over_nanoseconds() {
    assert_eq!(throughput_of(1024, 10000, -1), Some(1_024_000));
    assert_eq!(throughput_of(1024, 2000, 0), Some(512_000));
    assert_eq!(throughput_of(1024, 0, 0), None);
    assert_eq!(throughput_of(3, 2, 0), Some(1_500_000));
}

#[test]
fn parse_duration_reads_exponents() {
    assert_eq!(parse_duration("1e5"), Some((1, 5)));
    assert_eq!(parse_duration("1.5e-7"), Some((15, -8)));
    assert_eq!(parse_duration("2e+3"), Some((2, 3)));
    assert_eq!(parse_duration("1e16"), Some((1, 16)));
}

#[test]
fn throughput_with_exponents() {
    assert_eq!(throughput_of(1024, 15, -8), Some(6_826_666_666_666_666));
    assert_eq!(throughput_of(1_000_000, 1, 16), Some(0));
    assert_eq!(throughput_of(4_000_000_000, 1, 9), Some(4_000_000));
    assert_eq!(throughput_of(1, 1, -21), None);
    assert_eq!(throughput_of(4_000_000_000, 1, -10), None);
}

#[test]
fn size_may_carry_a_plus() {
    let excluded = vec![];
    let r = record_from_fields(Some("benchmark-complete"), Some("copy/fast/+1024"), Some("1000"), &excluded, 0);
    assert_eq!(r.unwrap().unwrap().num_bytes, 1024);
    assert!(record_from_fields(Some("benchmark-complete"), Some("copy/fast/+"), Some("1000"), &excluded, 0).is_err());
    assert!(record_from_fields(Some("benchmark-complete"), Some("copy/fast/-5"), Some("1000"), &excluded, 0).is_err());
}

#[test]
fn load_data_reads_exponent_estimates() {
    let lines = vec![r#"{"reason":"benchmark-complete","id":"copy/fast/1024","typical":{"estimate":1.5e-7}}"#.to_string()];
    let g = load_data(&lines, &vec![]).unwrap();
    assert_eq!(g.buckets[0][0].throughput, 6_826_666_666_666_666);
    let lines = vec![r#"{"reason":"benchmark-complete","id":"copy/fast/1024","typical":{"estimate":2E3}}"#.to_string()];
    let g = load_data(&lines, &vec![]).unwrap();
    assert_eq!(g.buckets[0][0].throughput, 512_000);
}

#[test]
fn load_data_stops_at_the_first_bad_line() {
    let lines = vec![
        r#"{"reason":"benchmark-complete","id":"copy/fast"}"#.to_string(),
        "not json".to_string(),
    ];
    assert_eq!(load_data(&lines, &vec![]).unwrap_err(), LoadError::MalformedRecord { line: 0 });
}

#[test]
fn group_key_joins_name_and_size() {
    assert_eq!(group_key("copy", 1024), "copy/1024");
    assert_eq!(group_key("x", 0), "x/0");
}

#[test]
fn other_reasons_are_skipped() {
    let excluded = vec![];
    let r = record_from_fields(Some("group-complete"), None, None, &excluded, 3);
    assert!(matches!(r, Ok(None)));
}

#[test]
fn missing_fields_are_malformed() {
    let excluded = vec![];
    assert_eq!(
        record_from_fields(None, Some("a/b/1"), Some("1.0"), &excluded, 4).unwrap_err(),
        LoadError::MalformedRecord { line: 4 }
    );
    assert!(record_from_fields(Some("benchmark-complete"), None, Some("1.0"), &excluded, 0).is_err());
    assert!(record_from_fields(Some("benchmark-complete"), Some("a/b"), Some("1.0"), &excluded, 0).is_err());
    assert!(record_from_fields(Some("benchmark-complete"), Some("a/b/x"), Some("1.0"), &excluded, 0).is_err());
    assert!(record_from_fields(Some("benchmark-complete"), Some("a/b/1"), None, &excluded, 0).is_err());
    assert!(record_from_fields(Some("benchmark-complete"), Some("a/b/1"), Some("0"), &excluded, 0).is_err());
}

#[test]
fn excluded_sizes_are_dropped() {
    let excluded = vec![96274];
    let r = record_from_fields(Some("benchmark-complete"), Some("copy/fast/96274"), Some("10.0"), &excluded, 0);
    assert!(matches!(r, Ok(None)));
    let events = vec![
        event("benchmark-complete", "copy/fast/96274", "10.0"),
        event("benchmark-complete", "copy/fast/1024", "10.0"),
    ];
    let g = load_events(&events, &excluded).unwrap();
    assert_eq!(g.keys, vec!["copy/1024".to_string()]);
    assert_eq!(g.buckets[0].len(), 1);
    assert_eq!(g.buckets[0][0].num_bytes, 1024);
}

#[test]
fn load_data_scenario_two_variants() {
    let lines = vec![
        r#"{"reason":"compiler-artifact","id":"x"}"#.to_string(),
        r#"{"reason":"benchmark-complete","id":"copy/fast/1024","typical":{"estimate":1000.0}}"#.to_string(),
        r#"{"reason":"benchmark-complete","id":"copy/slow/1024","typical":{"estimate":2000.0}}"#.to_string(),
    ];
    let g = load_data(&lines, &vec![]).unwrap();
    assert_eq!(g.keys, vec!["copy/1024".to_string()]);
    let b = &g.buckets[0];
    assert_eq!(b.len(), 2);
    assert_eq!(b[0].variant, "fast");
    assert_eq!(b[0].throughput, 1_024_000);
    assert_eq!(b[1].variant, "slow");
    assert_eq!(b[1].throughput, 512_000);
}

#[test]
fn load_data_reads_integer_estimates() {
    let lines = vec![r#"{"reason":"benchmark-complete","id":"copy/fast/1024","typical":{"estimate":2048}}"#.to_string()];
    let g = load_data(&lines, &vec![]).unwrap();
    assert_eq!(g.buckets[0][0].throughput, 500_000);
}

#[test]
fn load_data_reports_the_bad_line() {
    let lines = vec![
        r#"{"reason":"benchmark-complete","id":"copy/fast/1024","typical":{"estimate":1000.0}}"#.to_string(),
        "not json".to_string(),
    ];
    assert_eq!(load_data(&lines, &vec![]).unwrap_err(), LoadError::MalformedRecord { line: 1 });
    let lines = vec![r#"{"reason":"benchmark-complete","id":"copy/fast/1024"}"#.to_string()];
    assert_eq!(load_data(&lines, &vec![]).unwrap_err(), LoadError::MalformedRecord { line: 0 });
    let lines = vec![r#"{"reason":"benchmark-complete","id":"copy/fast/1024","typical":{"estimate":"1"}}"#.to_string()];
    assert!(load_data(&lines, &vec![]).is_err());
    let lines = vec![r#"{"id":"copy/fast/1024","typical":{"estimate":1}}"#.to_string()];
    assert!(load_data(&lines, &vec![]).is_err());
}

#[test]
fn groups_follow_text_order_of_keys() {
    let records = vec![
        rec("x", "a", 9, 1),
        rec("a", "a", 1, 2),
        rec("x", "b", 10, 3),
        rec("a-b", "a", 1, 4),
        rec("x", "c", 9, 5),
    ];
    let g = group_records(&records);
    let keys: Vec<&str> = g.keys.iter().map(|k| k.as_str()).collect();
    assert_eq!(keys, vec!["a-b/1", "a/1", "x/10", "x/9"]);
    let last: Vec<u64> = g.buckets[3].iter().map(|r| r.throughput).collect();
    assert_eq!(last, vec![1, 5]);
}

#[test]
fn every_record_lands_in_one_group_in_input_order() {
    let records = vec![
        rec("copy", "v1", 1, 10),
        rec("copy", "v2", 1, 20),
        rec("copy", "v1", 2, 30),
        rec("copy", "v3", 1, 40),
    ];
    let g = group_records(&records);
    assert_eq!(g.keys.len(), 2);
    let total: usize = g.buckets.iter().map(|b| b.len()).sum();
    assert_eq!(total, records.len());
    let first: Vec<&str> = g.buckets[0].iter().map(|r| r.variant.as_str()).collect();
    assert_eq!(first, vec!["v1", "v2", "v3"]);
}
