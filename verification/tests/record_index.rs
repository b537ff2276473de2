use mydns::mydns::db::records::DnsRecord;
use mydns::mydns::dns::record_index::{IndexResolution, RecordIndex};

fn record(id: i64, name: &str, rtype: &str, value: &str) -> DnsRecord {
    DnsRecord {
        id,
        name: name.to_string(),
        record_type: rtype.to_string(),
        value: value.to_string(),
        ttl: 300,
        priority: None,
        created_at: String::new(),
        updated_at: String::new(),
        is_dev: false,
    }
}

#[test]
fn finds_exact_record() {
    let mut index = RecordIndex::default();
    index.upsert(record(1, "example.com", "A", "1.2.3.4"));

    match index.resolve_authoritative("example.com", "A", None) {
        IndexResolution::Found(records) => assert_eq!(records[0].value, "1.2.3.4"),
        other => panic!("expected Found, got {other:?}"),
    }
}

#[test]
fn lookup_normalizes_case_and_trailing_dot() {
    let mut index = RecordIndex::default();
    index.upsert(record(1, "HOST.Example.COM.", "a", "192.0.2.1"));

    assert!(matches!(
        index.resolve_authoritative("host.example.com.", "A", None),
        IndexResolution::Found(_)
    ));
}

#[test]
fn missing_name_is_a_miss() {
    let index = RecordIndex::default();
    assert!(matches!(
        index.resolve_authoritative("missing.example.com", "A", None),
        IndexResolution::Miss
    ));
}

#[test]
fn existing_name_with_missing_type_is_nodata() {
    let mut index = RecordIndex::default();
    index.upsert(record(1, "example.com", "A", "1.2.3.4"));

    assert!(matches!(
        index.resolve_authoritative("example.com", "AAAA", None),
        IndexResolution::Nodata
    ));
}

#[test]
fn cname_chain_is_prepended_to_target_record() {
    let mut index = RecordIndex::default();
    index.upsert(record(
        1,
        "alias.example.com",
        "CNAME",
        "target.example.com",
    ));
    index.upsert(record(2, "target.example.com", "A", "1.2.3.4"));

    match index.resolve_authoritative("alias.example.com", "A", None) {
        IndexResolution::Found(records) => {
            assert_eq!(records.len(), 2);
            assert_eq!(records[0].record_type, "CNAME");
            assert_eq!(records[1].record_type, "A");
        }
        other => panic!("expected Found, got {other:?}"),
    }
}

#[test]
fn cname_to_missing_target_returns_cname_chain() {
    let mut index = RecordIndex::default();
    index.upsert(record(
        1,
        "alias.example.com",
        "CNAME",
        "external.example.net.",
    ));

    match index.resolve_authoritative("alias.example.com", "A", None) {
        IndexResolution::Found(records) => {
            assert_eq!(records.len(), 1);
            assert_eq!(records[0].record_type, "CNAME");
        }
        other => panic!("expected CNAME chain, got {other:?}"),
    }
}

#[test]
fn record_index_cname_loop_returns_servfail() {
    let mut index = RecordIndex::default();
    index.upsert(record(1, "a.example.com", "CNAME", "b.example.com"));
    index.upsert(record(2, "b.example.com", "CNAME", "a.example.com"));

    assert!(matches!(
        index.resolve_authoritative("a.example.com", "A", None),
        IndexResolution::ServFail
    ));
}

#[test]
fn excessive_cname_depth_returns_servfail() {
    let mut index = RecordIndex::default();
    for i in 0..12 {
        index.upsert(record(
            i,
            &format!("node{i}.example.com"),
            "CNAME",
            &format!("node{}.example.com", i + 1),
        ));
    }

    assert!(matches!(
        index.resolve_authoritative("node0.example.com", "A", None),
        IndexResolution::ServFail
    ));
}

#[test]
fn upsert_replaces_existing_record_by_id() {
    let mut index = RecordIndex::default();
    index.upsert(record(1, "example.com", "A", "1.2.3.4"));
    index.upsert(record(1, "example.com", "A", "5.6.7.8"));

    match index.resolve_authoritative("example.com", "A", None) {
        IndexResolution::Found(records) => {
            assert_eq!(records.len(), 1);
            assert_eq!(records[0].value, "5.6.7.8");
        }
        other => panic!("expected Found, got {other:?}"),
    }
}

#[test]
fn remove_by_id_removes_record_and_owner() {
    let mut index = RecordIndex::default();
    index.upsert(record(1, "example.com", "A", "1.2.3.4"));
    index.remove_by_id(1);

    assert!(matches!(
        index.resolve_authoritative("example.com", "A", None),
        IndexResolution::Miss
    ));
}

#[test]
fn remove_by_name_and_type_preserves_other_types() {
    let mut index = RecordIndex::default();
    index.upsert(record(1, "example.com", "A", "1.2.3.4"));
    index.upsert(record(2, "example.com", "MX", "mail.example.com"));
    index.remove("example.com", Some("A"));

    assert!(matches!(
        index.resolve_authoritative("example.com", "A", None),
        IndexResolution::Nodata
    ));
    assert!(matches!(
        index.resolve_authoritative("example.com", "MX", None),
        IndexResolution::Found(_)
    ));
}

#[test]
fn remove_by_name_removes_all_types() {
    let mut index = RecordIndex::default();
    index.upsert(record(1, "example.com", "A", "1.2.3.4"));
    index.upsert(record(2, "example.com", "MX", "mail.example.com"));
    index.remove("example.com", None);

    assert!(matches!(
        index.resolve_authoritative("example.com", "A", None),
        IndexResolution::Miss
    ));
}

#[test]
fn any_returns_all_records_at_owner() {
    let mut index = RecordIndex::default();
    index.upsert(record(1, "example.com", "A", "1.2.3.4"));
    index.upsert(record(2, "example.com", "AAAA", "2001:db8::1"));
    index.upsert(record(3, "example.com", "MX", "mail.example.com"));

    match index.resolve_authoritative("example.com", "ANY", None) {
        IndexResolution::Found(records) => assert_eq!(records.len(), 3),
        other => panic!("expected Found, got {other:?}"),
    }
}

#[test]
fn any_follows_cname_chain() {
    let mut index = RecordIndex::default();
    index.upsert(record(
        1,
        "alias.example.com",
        "CNAME",
        "target.example.com",
    ));
    index.upsert(record(2, "target.example.com", "A", "1.2.3.4"));
    index.upsert(record(3, "target.example.com", "AAAA", "2001:db8::1"));

    match index.resolve_authoritative("alias.example.com", "ANY", None) {
        IndexResolution::Found(records) => assert_eq!(records.len(), 3),
        other => panic!("expected Found, got {other:?}"),
    }
}

#[test]
fn empty_zone_apex_is_nodata() {
    let index = RecordIndex::default();

    assert!(matches!(
        index.resolve_authoritative("mydns.local", "SOA", Some("mydns.local")),
        IndexResolution::Nodata
    ));
}

#[test]
fn empty_non_terminal_is_nodata() {
    let mut index = RecordIndex::default();
    index.upsert(record(1, "deep.sub.mydns.local", "TXT", "hello"));

    assert!(matches!(
        index.resolve_authoritative("sub.mydns.local", "A", Some("mydns.local")),
        IndexResolution::Nodata
    ));
}

#[test]
fn upsert_then_remove_by_id_restores_answers() {
    let mut index = RecordIndex::default();
    index.upsert(record(1, "example.com", "A", "192.0.2.1"));
    let queries = [("example.com", "A"), ("example.com", "AAAA"), ("www.example.com", "A"), ("www.example.com", "ANY")];
    let before: Vec<String> =
        queries.iter().map(|(n, t)| format!("{:?}", index.resolve_authoritative(n, t, None))).collect();
    index.upsert(record(2, "www.example.com", "A", "192.0.2.2"));
    assert!(matches!(index.resolve_authoritative("www.example.com", "A", None), IndexResolution::Found(_)));
    index.remove_by_id(2);
    let after: Vec<String> =
        queries.iter().map(|(n, t)| format!("{:?}", index.resolve_authoritative(n, t, None))).collect();
    assert_eq!(before, after);
}

#[test]
fn owner_and_ancestors_never_miss_after_upsert() {
    let mut index = RecordIndex::default();
    index.upsert(record(1, "a.b.example.com", "A", "192.0.2.1"));
    for name in ["a.b.example.com", "b.example.com", "example.com", "com"] {
        assert!(!matches!(index.resolve_authoritative(name, "MX", None), IndexResolution::Miss), "{name}");
    }
    assert!(matches!(index.resolve_authoritative("c.example.com", "MX", None), IndexResolution::Miss));
    assert!(matches!(index.resolve_authoritative("b.example.com", "MX", None), IndexResolution::Nodata));
}

#[test]
fn found_answer_is_cname_chain_then_target_records() {
    let mut index = RecordIndex::default();
    index.upsert(record(1, "a.example.com", "CNAME", "b.example.com."));
    index.upsert(record(2, "b.example.com", "CNAME", "C.example.com"));
    index.upsert(record(3, "c.example.com", "A", "192.0.2.3"));
    index.upsert(record(4, "c.example.com", "A", "192.0.2.4"));
    match index.resolve_authoritative("a.example.com", "A", None) {
        IndexResolution::Found(records) => {
            let ids: Vec<i64> = records.iter().map(|r| r.id).collect();
            assert_eq!(ids, vec![1, 2, 3, 4]);
        },
        other => panic!("expected Found, got {other:?}"),
    }
}

#[test]
fn servfail_exactly_past_ten_cname_moves() {
    let mut index = RecordIndex::default();
    for i in 0..10 {
        index.upsert(record(i, &format!("n{i}.test"), "CNAME", &format!("n{}.test", i + 1)));
    }
    index.upsert(record(100, "n10.test", "A", "192.0.2.10"));
    match index.resolve_authoritative("n0.test", "A", None) {
        IndexResolution::Found(records) => assert_eq!(records.len(), 11),
        other => panic!("expected Found, got {other:?}"),
    }
    index.remove_by_id(100);
    index.upsert(record(10, "n10.test", "CNAME", "n11.test"));
    index.upsert(record(101, "n11.test", "A", "192.0.2.11"));
    assert!(matches!(index.resolve_authoritative("n1.test", "A", None), IndexResolution::Found(_)));
    assert!(matches!(index.resolve_authoritative("n0.test", "A", None), IndexResolution::ServFail));
}

#[test]
fn ancestors_in_any_spelling_never_miss_after_upsert() {
    let mut index = RecordIndex::default();
    index.upsert(record(1, "A.B.Example.com.", "TXT", "hello"));
    for name in ["a.b.example.com", "B.EXAMPLE.COM.", "Example.Com..", "COM"] {
        assert!(!matches!(index.resolve_authoritative(name, "A", Some("zone.test")), IndexResolution::Miss), "{name}");
    }
}

#[test]
fn upsert_then_query_returns_previous_records_then_the_new_one() {
    let mut index = RecordIndex::default();
    index.upsert(record(1, "www.example.com", "A", "192.0.2.1"));
    index.upsert(record(2, "www.example.com", "A", "192.0.2.2"));
    index.upsert(record(1, "WWW.example.com.", "a", "192.0.2.9"));
    match index.resolve_authoritative("WWW.example.com.", "a", None) {
        IndexResolution::Found(records) => {
            let got: Vec<(i64, &str)> = records.iter().map(|r| (r.id, r.value.as_str())).collect();
            assert_eq!(got, vec![(2, "192.0.2.2"), (1, "192.0.2.9")]);
        },
        other => panic!("expected Found, got {other:?}"),
    }
}

#[test]
fn removed_id_is_never_answered() {
    let mut index = RecordIndex::default();
    index.upsert(record(1, "a.example.com", "CNAME", "b.example.com"));
    index.upsert(record(2, "b.example.com", "A", "192.0.2.2"));
    index.upsert(record(3, "b.example.com", "A", "192.0.2.3"));
    index.remove_by_id(2);
    for (name, t) in [("a.example.com", "A"), ("b.example.com", "A"), ("b.example.com", "ANY")] {
        if let IndexResolution::Found(records) = index.resolve_authoritative(name, t, None) {
            assert!(records.iter().all(|r| r.id != 2));
            assert!(records.iter().any(|r| r.id == 3));
        } else {
            panic!("expected Found for {name}");
        }
    }
}
