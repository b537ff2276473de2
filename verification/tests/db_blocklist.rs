use mydns::mydns::db::blocklist::{
    default_source, default_true, normalize_domain, prepare_entry, CreateBlocklistEntry,
    DomainError, EntryError,
};

#[test]
fn normalize_lowercase() {
    assert_eq!(
        normalize_domain("ADS.Example.COM").unwrap(),
        "ads.example.com"
    );
}

#[test]
fn normalize_strips_trailing_dot() {
    assert_eq!(normalize_domain("example.com.").unwrap(), "example.com");
}

#[test]
fn normalize_rejects_empty() {
    assert!(normalize_domain("").is_err());
    assert!(normalize_domain(".").is_err());
}

#[test]
fn normalize_rejects_url_chars() {
    assert!(normalize_domain("http://ads.example.com").is_err());
}

#[test]
fn normalize_rejects_leading_hyphen() {
    assert!(normalize_domain("-bad.example.com").is_err());
}

#[test]
fn normalize_rejects_trailing_hyphen() {
    assert!(normalize_domain("bad-.example.com").is_err());
}

#[test]
fn normalize_rejects_empty_label() {
    assert!(normalize_domain("bad..example.com").is_err());
}

#[test]
fn normalize_accepts_valid() {
    assert!(normalize_domain("tracker.ads.example.com").is_ok());
    assert!(normalize_domain("xn--nxasmq6b.com").is_ok());
}

#[test]
fn normalize_accepts_maximum_label_length() {
    let domain = format!("{}.example.com", "a".repeat(63));
    assert_eq!(normalize_domain(&domain).unwrap(), domain);
}

#[test]
fn normalize_rejects_oversized_label() {
    let domain = format!("{}.example.com", "a".repeat(64));
    assert!(normalize_domain(&domain).is_err());
}

#[test]
fn normalize_rejects_colon_and_at_sign() {
    assert!(normalize_domain("dns:example.com").is_err());
    assert!(normalize_domain("user@example.com").is_err());
}

#[test]
fn normalize_preserves_internal_labels_and_only_strips_trailing_dots() {
    assert_eq!(normalize_domain("  ADS.Example.COM.  ").unwrap(), "  ads.example.com.  ");
}

#[test]
fn default_create_fields_are_stable() {
    assert!(default_true());
    assert_eq!(default_source(), "manual");
}

#[test]
fn normalize_reports_each_rule() {
    assert_eq!(normalize_domain("."), Err(DomainError::RootZone));
    assert_eq!(normalize_domain("..."), Err(DomainError::Empty));
    assert_eq!(normalize_domain("a/b.com"), Err(DomainError::NotPlainName));
    assert_eq!(normalize_domain("a..b"), Err(DomainError::BadLabelLength));
    assert_eq!(normalize_domain("-a.b"), Err(DomainError::HyphenAtEdge));
    assert_eq!(normalize_domain("a_b.com"), Err(DomainError::InvalidCharacter));
    assert_eq!(normalize_domain("EXAMPLE.com..."), Ok("example.com".to_string()));
}

#[test]
fn label_length_counts_bytes() {
    // 32 two-byte characters are 64 bytes: too long, not a character fault.
    let label = "é".repeat(32);
    assert_eq!(normalize_domain(&label), Err(DomainError::BadLabelLength));
    let label = "é".repeat(31);
    assert_eq!(normalize_domain(&label), Err(DomainError::InvalidCharacter));
}

#[test]
fn domain_error_messages() {
    assert_eq!(DomainError::RootZone.message(), "The root zone '.' cannot be blocked");
    assert_eq!(
        DomainError::InvalidCharacter.message(),
        "DNS labels may only contain letters, digits, and hyphens"
    );
}

#[test]
fn prepare_entry_checks_domain_then_source() {
    let req = CreateBlocklistEntry {
        domain: "Ads.Example.com.".to_string(),
        enabled: true,
        source: "  imported ".to_string(),
        reason: None,
    };
    assert_eq!(
        prepare_entry(&req),
        Ok(("ads.example.com".to_string(), "imported".to_string()))
    );
    let bad_source = CreateBlocklistEntry {
        domain: "ads.example.com".to_string(),
        enabled: true,
        source: "unknown".to_string(),
        reason: None,
    };
    assert_eq!(prepare_entry(&bad_source), Err(EntryError::InvalidSource));
    let bad_both = CreateBlocklistEntry {
        domain: ".".to_string(),
        enabled: true,
        source: "unknown".to_string(),
        reason: None,
    };
    assert_eq!(
        prepare_entry(&bad_both),
        Err(EntryError::Domain(DomainError::RootZone))
    );
}

#[test]
fn only_ascii_whitespace_is_trimmed_before_label_checks() {
    assert_eq!(normalize_domain("\tads.example.com \r\n").unwrap(), "\tads.example.com \r\n");
    assert_eq!(normalize_domain("\u{a0}a"), Err(DomainError::InvalidCharacter));
    assert_eq!(normalize_domain("ads.\u{2003}example.com"), Err(DomainError::InvalidCharacter));
    assert_eq!(normalize_domain("ads.example.com\u{3000}"), Err(DomainError::InvalidCharacter));
}

#[test]
fn normalized_domain_is_accepted_again_unchanged() {
    for raw in ["ADS.Example.COM.", "  ADS.Example.COM.  ", "a-b.c0"] {
        let once = normalize_domain(raw).unwrap();
        assert_eq!(normalize_domain(&once).unwrap(), once, "{raw}");
    }
}
