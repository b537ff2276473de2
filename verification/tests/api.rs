use chrono::{DateTime, Datelike, Timelike};
use mydns::mydns::api::cache::{merge_cache_listing, CacheEntryInfo};
use mydns::mydns::api::stats::{history_window, instant_to_nanos, parse_timestamp, window_of, HistoryQuery};
use mydns::mydns::db::cache::CacheRow;
use mydns::mydns::db::zones::{apex_records, seed_zone_name};
use mydns::mydns::error::ApiError;

fn info(name: &str, rtype: &str, ttl: u32, values: &[&str]) -> CacheEntryInfo {
    CacheEntryInfo {
        name: name.to_string(),
        record_type: rtype.to_string(),
        ttl_remaining: ttl,
        values: values.iter().map(|v| v.to_string()).collect(),
    }
}

fn row(name: &str, rtype: &str, value: &str, expires_at: i64) -> CacheRow {
    CacheRow {
        id: 0,
        name: name.to_string(),
        record_type: rtype.to_string(),
        value: value.to_string(),
        ttl: 0,
        expires_at,
        priority: None,
    }
}

#[test]
fn cache_listing_merges_and_sorts_by_name() {
    let memory = vec![info("zeta.test", "A", 100, &["1.1.1.1"]), info("alpha.test", "A", 50, &["2.2.2.2"])];
    let rows = vec![
        row("alpha.test", "A", "2.2.2.2", 1030),
        row("alpha.test", "A", "3.3.3.3", 1010),
        row("mid.test", "AAAA", "::1", 900),
    ];
    let out = merge_cache_listing(memory, &rows, 1000);
    let names: Vec<&str> = out.iter().map(|e| e.name.as_str()).collect();
    assert_eq!(names, vec!["alpha.test", "mid.test", "zeta.test"]);
    assert_eq!(out[0].values, vec!["2.2.2.2", "3.3.3.3"]);
    assert_eq!(out[0].ttl_remaining, 10);
    assert_eq!(out[1].ttl_remaining, 0);
    assert_eq!(out[1].values, vec!["::1"]);
    assert_eq!(out[2].ttl_remaining, 100);
}

#[test]
fn timestamps_parse_to_utc_nanoseconds() {
    // 2026-09-21T12:30:45+05:30 is 07:00:45 UTC.
    let t = parse_timestamp(Some("2026-09-21T12:30:45+05:30"), "from").unwrap().unwrap();
    let expected = parse_timestamp(Some("2026-09-21T07:00:45Z"), "from").unwrap().unwrap();
    assert_eq!(t, expected);
    assert_eq!(parse_timestamp(Some("1970-01-01T00:00:01Z"), "to").unwrap(), Some(1_000_000_000));
    assert_eq!(parse_timestamp(Some("1970-01-01T00:00:01.000000123Z"), "to").unwrap(), Some(1_000_000_123));
    assert_eq!(parse_timestamp(Some("1969-12-31T23:59:59.5Z"), "to").unwrap(), Some(-500_000_000));
}

#[test]
fn absent_timestamp_is_none() {
    assert!(parse_timestamp(None, "to").unwrap().is_none());
}

#[test]
fn malformed_timestamp_returns_bad_request_with_field_context() {
    let error = parse_timestamp(Some("not-a-timestamp"), "to").unwrap_err();
    match error {
        ApiError::BadRequest(message) => {
            assert!(message.contains("invalid 'to' timestamp"));
            assert!(message.contains("not-a-timestamp"));
        }
        other => panic!("expected BadRequest, got {other:?}"),
    }
}

const HOUR: i128 = 3_600_000_000_000;

#[test]
fn history_window_defaults_caps_and_rejects() {
    let now = 100 * HOUR;
    let q = HistoryQuery { from: None, to: None };
    assert_eq!(history_window(&q, now).unwrap(), (now - HOUR, now));
    let q = HistoryQuery { from: Some("1970-01-01T00:00:00Z".to_string()), to: None };
    assert_eq!(history_window(&q, now).unwrap(), (now - 24 * HOUR, now));
    let q = HistoryQuery { from: None, to: Some("2999-01-01T00:00:00Z".to_string()) };
    assert_eq!(history_window(&q, now).unwrap().1, now);
    let q = HistoryQuery { from: Some("1970-01-02T00:00:00Z".to_string()), to: Some("1970-01-01T00:00:00Z".to_string()) };
    match history_window(&q, now) {
        Err(ApiError::BadRequest(m)) => assert_eq!(m, "history 'from' must not be after 'to'"),
        other => panic!("unexpected {other:?}"),
    }
    let q = HistoryQuery { from: Some("bad".to_string()), to: Some("also bad".to_string()) };
    match history_window(&q, now) {
        Err(ApiError::BadRequest(m)) => assert!(m.contains("'to'")),
        other => panic!("unexpected {other:?}"),
    }
}

#[test]
fn api_errors_map_to_statuses_and_messages() {
    let e = ApiError::Unauthorized("authentication required".to_string());
    assert_eq!(e.to_string(), "Unauthorized: authentication required");
    assert_eq!((e.status(), e.client_message()), (401, "authentication required".to_string()));
    let e = ApiError::NotFound("zone.example".to_string());
    assert_eq!(e.to_string(), "Not found: zone.example");
    assert_eq!(e.status(), 404);
    let e = ApiError::BadRequest("invalid record".to_string());
    assert_eq!(e.to_string(), "Bad request: invalid record");
    assert_eq!(e.status(), 400);
    let e = ApiError::TooManyRequests("rate limit exceeded".to_string());
    assert_eq!(e.to_string(), "Too many requests: rate limit exceeded");
    assert_eq!(e.status(), 429);
    let e = ApiError::Internal("database connection failed".to_string());
    assert_eq!(e.to_string(), "database connection failed");
    assert_eq!((e.status(), e.client_message()), (500, "Internal server error".to_string()));
}

#[test]
fn zones_are_seeded_canonically() {
    assert_eq!(seed_zone_name("."), Some(".".to_string()));
    assert_eq!(seed_zone_name("Home.ARPA."), Some("home.arpa".to_string()));
    assert_eq!(seed_zone_name(".."), None);
    let (apex, soa, ns) = apex_records("lab.local.");
    assert_eq!(apex, "lab.local");
    assert_eq!(soa, "ns1.lab.local. hostmaster.lab.local. 1 3600 600 86400 300");
    assert_eq!(ns, "ns1.lab.local.");
}

#[test]
fn parses_rfc3339_and_normalizes_to_utc() {
    let nanos = parse_timestamp(Some("2026-09-21T12:30:45+05:30"), "from").unwrap().unwrap();
    let parsed = DateTime::from_timestamp_nanos(i64::try_from(nanos).unwrap());
    assert_eq!(parsed.year(), 2026);
    assert_eq!(parsed.month(), 9);
    assert_eq!(parsed.day(), 21);
    assert_eq!(parsed.hour(), 7);
    assert_eq!(parsed.minute(), 0);
    assert_eq!(parsed.second(), 45);
}

#[test]
fn history_window_compares_at_full_precision() {
    let now = 100 * HOUR;
    let q = HistoryQuery {
        from: Some("1970-01-01T00:00:00.000000002Z".to_string()),
        to: Some("1970-01-01T00:00:00.000000001Z".to_string()),
    };
    assert!(matches!(history_window(&q, now), Err(ApiError::BadRequest(_))));
    let q = HistoryQuery { from: Some("1970-01-01T00:00:00.000000001Z".to_string()), to: q.from.clone() };
    assert_eq!(history_window(&q, now).unwrap(), (1, 2));
}

#[test]
fn instants_and_windows_from_parsed_values() {
    assert_eq!(instant_to_nanos((1, 5)), 1_000_000_005);
    assert_eq!(instant_to_nanos((-1, 500_000_000)), -500_000_000);
    let now = 100 * HOUR;
    assert_eq!(window_of(None, None, now), Some((99 * HOUR, now)));
    assert_eq!(window_of(Some(0), Some(200 * HOUR), now), Some((76 * HOUR, now)));
    assert_eq!(window_of(Some(10 * HOUR), Some(20 * HOUR), now), Some((10 * HOUR, 20 * HOUR)));
    assert_eq!(window_of(Some(21 * HOUR), Some(20 * HOUR), now), None);
    assert_eq!(window_of(None, None, i128::MIN), Some((i128::MIN, i128::MIN)));
}
