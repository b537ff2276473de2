use mydns::db::records::DnsRecord;
use mydns::dns::record_index::{IndexResolution, RecordIndex};

fn make_record(id: i64, name: &str, rtype: &str, value: &str) -> DnsRecord {
    DnsRecord {
        id,
        name: name.to_string(),
        record_type: rtype.to_string(),
        value: value.to_string(),
        ttl: 300,
        priority: None,
        created_at: String::new(),
        updated_at: String::new(),
        is_dev: false,
    }
}

#[test]
fn found_existing_record() {
    let mut idx = RecordIndex::default();
    idx.upsert(make_record(1, "example.com", "A", "1.2.3.4"));
    match idx.resolve_authoritative("example.com", "A") {
        IndexResolution::Found(r) => {
            assert_eq!(r.len(), 1);
            assert_eq!(r[0].value, "1.2.3.4");
        }
        other => panic!("Expected Found, got {:?}", other),
    }
}

#[test]
fn miss_for_unknown_name() {
    let idx = RecordIndex::default();
    assert!(matches!(
        idx.resolve_authoritative("unknown.com", "A"),
        IndexResolution::Miss
    ));
}

#[test]
fn nodata_when_name_exists_different_type() {
    let mut idx = RecordIndex::default();
    idx.upsert(make_record(1, "example.com", "MX", "mail.example.com"));
    assert!(matches!(
        idx.resolve_authoritative("example.com", "A"),
        IndexResolution::Nodata
    ));
}

#[test]
fn cname_chain_prepended_correctly() {
    let mut idx = RecordIndex::default();
    idx.upsert(make_record(
        1,
        "alias.example.com",
        "CNAME",
        "target.example.com",
    ));
    idx.upsert(make_record(2, "target.example.com", "A", "1.2.3.4"));
    match idx.resolve_authoritative("alias.example.com", "A") {
        IndexResolution::Found(r) => {
            assert_eq!(r.len(), 2);
            assert_eq!(r[0].record_type, "CNAME");
            assert_eq!(r[0].name, "alias.example.com");
            assert_eq!(r[1].record_type, "A");
            assert_eq!(r[1].value, "1.2.3.4");
        }
        other => panic!("Expected Found, got {:?}", other),
    }
}

#[test]
fn deep_cname_chain() {
    let mut idx = RecordIndex::default();
    idx.upsert(make_record(1, "a.example.com", "CNAME", "b.example.com"));
    idx.upsert(make_record(2, "b.example.com", "CNAME", "c.example.com"));
    idx.upsert(make_record(3, "c.example.com", "A", "10.0.0.1"));
    match idx.resolve_authoritative("a.example.com", "A") {
        IndexResolution::Found(r) => {
            assert_eq!(r.len(), 3);
            assert_eq!(r[0].name, "a.example.com");
            assert_eq!(r[1].name, "b.example.com");
            assert_eq!(r[2].name, "c.example.com");
        }
        other => panic!("Expected Found, got {:?}", other),
    }
}

#[test]
fn upsert_replaces_record_by_id() {
    let mut idx = RecordIndex::default();
    idx.upsert(make_record(1, "example.com", "A", "1.2.3.4"));
    idx.upsert(make_record(1, "example.com", "A", "5.6.7.8"));
    match idx.resolve_authoritative("example.com", "A") {
        IndexResolution::Found(r) => {
            assert_eq!(r.len(), 1);
            assert_eq!(r[0].value, "5.6.7.8");
        }
        other => panic!("Expected Found, got {:?}", other),
    }
}

#[test]
fn remove_by_id_cleans_up() {
    let mut idx = RecordIndex::default();
    idx.upsert(make_record(1, "example.com", "A", "1.2.3.4"));
    idx.remove_by_id(1);
    assert!(matches!(
        idx.resolve_authoritative("example.com", "A"),
        IndexResolution::Miss
    ));
}

#[test]
fn remove_by_name_and_type_leaves_others() {
    let mut idx = RecordIndex::default();
    idx.upsert(make_record(1, "example.com", "A", "1.2.3.4"));
    idx.upsert(make_record(2, "example.com", "MX", "mail.example.com"));
    idx.remove("example.com", Some("A"));
    assert!(matches!(
        idx.resolve_authoritative("example.com", "A"),
        IndexResolution::Nodata
    ));
    assert!(matches!(
        idx.resolve_authoritative("example.com", "MX"),
        IndexResolution::Found(_)
    ));
}

#[test]
fn remove_all_by_name() {
    let mut idx = RecordIndex::default();
    idx.upsert(make_record(1, "example.com", "A", "1.2.3.4"));
    idx.upsert(make_record(2, "example.com", "MX", "mail.example.com"));
    idx.remove("example.com", None);
    assert!(matches!(
        idx.resolve_authoritative("example.com", "A"),
        IndexResolution::Miss
    ));
}

#[test]
fn explicit_cname_query_nodata_when_name_exists() {
    let mut idx = RecordIndex::default();
    idx.upsert(make_record(1, "example.com", "A", "1.2.3.4"));
    assert!(matches!(
        idx.resolve_authoritative("example.com", "CNAME"),
        IndexResolution::Nodata
    ));
}


#[test]
fn cname_loop_returns_servfail() {
    let mut idx = RecordIndex::default();
    idx.upsert(make_record(
        1,
        "loop-a.example.com",
        "CNAME",
        "loop-b.example.com",
    ));
    idx.upsert(make_record(
        2,
        "loop-b.example.com",
        "CNAME",
        "loop-a.example.com",
    ));
    assert!(matches!(
        idx.resolve_authoritative("loop-a.example.com", "A"),
        IndexResolution::ServFail
    ));
}
