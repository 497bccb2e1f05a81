use spotrank::Classification;
use spotrank::SpotError;
use spotrank::price::parse_price;
use spotrank::rank::aggregate;
use spotrank::types::RawObservation;

fn obs(zone: &str, price: &str, timestamp: &str) -> RawObservation {
    RawObservation {
        zone: zone.as_bytes().to_vec(),
        timestamp: timestamp.as_bytes().to_vec(),
        price_text: price.as_bytes().to_vec(),
    }
}

fn row_pairs(report: &spotrank::rank::SpotReport) -> Vec<(String, u64)> {
    report
        .rows
        .iter()
        .map(|r| (String::from_utf8(r.zone.clone()).unwrap(), r.price))
        .collect()
}

#[test]
fn parse_price_exact_values() {
    assert_eq!(parse_price(&b"0.0605".to_vec()), Ok(60500));
    assert_eq!(parse_price(&b"12".to_vec()), Ok(12_000_000));
    assert_eq!(parse_price(&b"0.000001".to_vec()), Ok(1));
    assert_eq!(parse_price(&b".5".to_vec()), Ok(500_000));
    assert_eq!(parse_price(&b"5.".to_vec()), Ok(5_000_000));
    assert_eq!(parse_price(&b"999999999999.999999".to_vec()), Ok(999_999_999_999_999_999));
}

#[test]
fn parse_price_rejects_malformed() {
    assert_eq!(parse_price(&b"".to_vec()), Err(SpotError::MalformedPrice));
    assert_eq!(parse_price(&b".".to_vec()), Err(SpotError::MalformedPrice));
    assert_eq!(parse_price(&b"1.2.3".to_vec()), Err(SpotError::MalformedPrice));
    assert_eq!(parse_price(&b"abc".to_vec()), Err(SpotError::MalformedPrice));
    assert_eq!(parse_price(&b"-1".to_vec()), Err(SpotError::MalformedPrice));
    assert_eq!(parse_price(&b"1234567890123".to_vec()), Err(SpotError::MalformedPrice));
    assert_eq!(parse_price(&b"0.1234567".to_vec()), Err(SpotError::MalformedPrice));
}

#[test]
fn three_observations_scenario() {
    // Two observations for one zone (the later one wins) and one for another.
    let raw = vec![
        obs("zoneA", "0.05", "2024-01-01T00:00:00.000Z"),
        obs("zoneA", "0.06", "2024-01-01T02:00:00.000Z"),
        obs("zoneB", "0.055", "2024-01-01T01:00:00.000Z"),
    ];
    let report = aggregate(&raw).unwrap();
    assert_eq!(
        row_pairs(&report),
        vec![("zoneB".to_string(), 55_000), ("zoneA".to_string(), 60_000)]
    );
    assert_eq!(report.rows[0].classification, Classification::Cheapest);
    // 0.06 <= 1.1 * 0.055 = 0.0605, inclusive band.
    assert_eq!(report.rows[1].classification, Classification::NearCheapest);
    let cheapest = report.cheapest.unwrap();
    assert_eq!(cheapest.zone, b"zoneB".to_vec());
    assert_eq!(cheapest.price, 55_000);
}

#[test]
fn empty_window_has_no_cheapest() {
    let report = aggregate(&vec![]).unwrap();
    assert_eq!(report.rows.len(), 0);
    assert!(report.cheapest.is_none());
}

#[test]
fn band_boundary_is_inclusive() {
    // min 0.055; 0.0605 is exactly 1.1 * min and must be NearCheapest;
    // 0.0606 is just outside and must be Normal.
    let raw = vec![
        obs("zoneB", "0.055", "t1"),
        obs("zoneA", "0.0605", "t1"),
        obs("zoneC", "0.0606", "t1"),
    ];
    let report = aggregate(&raw).unwrap();
    let classes: Vec<(String, Classification)> = report
        .rows
        .iter()
        .map(|r| (String::from_utf8(r.zone.clone()).unwrap(), r.classification))
        .collect();
    assert_eq!(classes[0], ("zoneB".to_string(), Classification::Cheapest));
    assert_eq!(classes[1], ("zoneA".to_string(), Classification::NearCheapest));
    assert_eq!(classes[2], ("zoneC".to_string(), Classification::Normal));
}

#[test]
fn latest_timestamp_wins_per_zone() {
    let raw = vec![
        obs("us-west-2a", "0.9", "2024-01-01T03:00:00.000Z"),
        obs("us-west-2a", "0.1", "2024-01-01T01:00:00.000Z"),
        obs("us-west-2a", "0.5", "2024-01-01T02:00:00.000Z"),
    ];
    let report = aggregate(&raw).unwrap();
    assert_eq!(report.rows.len(), 1);
    assert_eq!(report.rows[0].price, 900_000);
}

#[test]
fn row_count_equals_distinct_zones() {
    let raw = vec![
        obs("a", "1", "t1"),
        obs("b", "2", "t1"),
        obs("a", "3", "t2"),
        obs("c", "4", "t1"),
        obs("b", "5", "t0"),
    ];
    let report = aggregate(&raw).unwrap();
    assert_eq!(report.rows.len(), 3);
}

#[test]
fn permuted_window_gives_same_pairs() {
    let raw1 = vec![
        obs("a", "1", "t1"),
        obs("b", "2", "t1"),
        obs("a", "3", "t2"),
        obs("c", "4", "t1"),
    ];
    let raw2 = vec![
        obs("c", "4", "t1"),
        obs("a", "3", "t2"),
        obs("b", "2", "t1"),
        obs("a", "1", "t1"),
    ];
    let r1 = aggregate(&raw1).unwrap();
    let r2 = aggregate(&raw2).unwrap();
    assert_eq!(row_pairs(&r1), row_pairs(&r2));
}

#[test]
fn price_tie_breaks_to_smallest_zone_name() {
    let raw = vec![
        obs("zoneB", "0.05", "t1"),
        obs("zoneA", "0.05", "t1"),
    ];
    let report = aggregate(&raw).unwrap();
    let cheapest = report.cheapest.unwrap();
    assert_eq!(cheapest.zone, b"zoneA".to_vec());
    let cheapest_rows: Vec<&spotrank::types::RankedZone> = report
        .rows
        .iter()
        .filter(|r| r.classification == Classification::Cheapest)
        .collect();
    assert_eq!(cheapest_rows.len(), 1);
    assert_eq!(cheapest_rows[0].zone, b"zoneA".to_vec());
}

#[test]
fn one_malformed_price_fails_the_window() {
    let raw = vec![
        obs("a", "0.05", "t1"),
        obs("b", "oops", "t1"),
    ];
    assert_eq!(aggregate(&raw).unwrap_err(), SpotError::MalformedPrice);
}
