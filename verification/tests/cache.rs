use hickory_proto::rr::{Record, RecordType};
use mydns::mydns::cache::{CacheEntry, CacheResult, CacheStats, DnsCache};
use std::time::Duration;

fn code(t: RecordType) -> u16 {
    u16::from(t)
}

fn cache() -> DnsCache<Record> {
    DnsCache::new()
}

#[test]
fn tests_insert_and_hit() {
    let mut cache = cache();
    cache.insert("example.com.", code(RecordType::A), vec![], Duration::from_secs(300), false);
    let (result, _, records) = cache
        .get("example.com.", code(RecordType::A))
        .expect("cache entry should exist");
    assert_eq!(result, CacheResult::Positive);
    assert!(records.is_empty());
}

#[test]
fn lookup_normalizes_name_case() {
    let mut cache = cache();
    cache.insert("Example.COM.", code(RecordType::A), vec![], Duration::from_secs(300), true);
    let (_, authoritative, _) = cache
        .get("example.com.", code(RecordType::A))
        .expect("normalized lookup should hit");
    assert!(authoritative);
}

#[test]
fn authoritative_flag_is_preserved() {
    let mut cache = cache();
    cache.insert("authoritative.test.", code(RecordType::A), vec![], Duration::from_secs(300), true);
    let (_, authoritative, _) = cache
        .get("authoritative.test.", code(RecordType::A))
        .expect("cache entry should exist");
    assert!(authoritative);
}

#[test]
fn replacing_existing_key_does_not_grow_cache() {
    let mut cache = cache();
    cache.insert("example.com.", code(RecordType::A), vec![], Duration::from_secs(300), false);
    cache.insert("example.com.", code(RecordType::A), vec![], Duration::from_secs(300), true);
    assert_eq!(cache.len(), 1);
    let (_, authoritative, _) = cache
        .get("example.com.", code(RecordType::A))
        .expect("replacement should remain present");
    assert!(authoritative);
}

#[test]
fn tests_negative_entry_is_distinguishable_from_empty_positive_response() {
    let mut cache = cache();
    cache.insert_negative("missing.example.", code(RecordType::A), Duration::from_secs(60));
    let (result, _, records) = cache
        .get("missing.example.", code(RecordType::A))
        .expect("negative cache entry should exist");
    assert_eq!(result, CacheResult::Negative);
    assert!(records.is_empty());
}

#[test]
fn tests_miss_on_wrong_type() {
    let mut cache = cache();
    cache.insert("example.com.", code(RecordType::A), vec![], Duration::from_secs(300), false);
    assert!(cache.get("example.com.", code(RecordType::AAAA)).is_none());
}

#[test]
fn tests_expired_entry_returns_none() {
    let mut cache = cache();
    cache.insert("example.com.", code(RecordType::A), vec![], Duration::from_millis(0), false);
    assert!(cache.get("example.com.", code(RecordType::A)).is_none());
}

#[test]
fn tests_prune_removes_expired_entries() {
    let mut cache = cache();
    cache.insert("expired.test.", code(RecordType::A), vec![], Duration::from_millis(0), false);
    cache.insert("valid.test.", code(RecordType::A), vec![], Duration::from_secs(300), false);
    let pruned = cache.prune();
    assert_eq!(pruned, 1);
    assert_eq!(cache.len(), 1);
}

#[test]
fn tests_remove_specific_entry() {
    let mut cache = cache();
    cache.insert("target.test.", code(RecordType::A), vec![], Duration::from_secs(300), false);
    cache.remove("target.test.", code(RecordType::A));
    assert!(cache.get("target.test.", code(RecordType::A)).is_none());
}

#[test]
fn remove_name_removes_all_record_types_but_preserves_other_names() {
    let mut cache = cache();
    for rtype in [RecordType::A, RecordType::AAAA, RecordType::MX] {
        cache.insert("target.test.", code(rtype), vec![], Duration::from_secs(300), false);
    }
    cache.insert("other.test.", code(RecordType::A), vec![], Duration::from_secs(300), false);
    cache.remove_name("TARGET.TEST.");
    assert_eq!(cache.len(), 1);
    assert!(cache.get("target.test.", code(RecordType::A)).is_none());
    assert!(cache.get("target.test.", code(RecordType::AAAA)).is_none());
    assert!(cache.get("other.test.", code(RecordType::A)).is_some());
}

#[test]
fn tests_list_all_returns_correct_data() {
    let mut cache = cache();
    cache.insert("list.test.", code(RecordType::A), vec![], Duration::from_secs(300), false);
    let all = cache.list_all();
    assert_eq!(all.len(), 1);
    assert_eq!(all[0].0, "list.test.");
}

#[test]
fn list_all_excludes_expired_entries() {
    let mut cache = cache();
    cache.insert("expired.test.", code(RecordType::A), vec![], Duration::from_millis(0), false);
    cache.insert("valid.test.", code(RecordType::A), vec![], Duration::from_secs(300), false);
    let all = cache.list_all();
    assert_eq!(all.len(), 1);
    assert_eq!(all[0].0, "valid.test.");
}

#[test]
fn clear_removes_all_entries() {
    let mut cache = cache();
    cache.insert("one.test.", code(RecordType::A), vec![], Duration::from_secs(300), false);
    cache.insert("two.test.", code(RecordType::AAAA), vec![], Duration::from_secs(300), false);
    cache.clear();
    assert!(cache.is_empty());
    assert_eq!(cache.len(), 0);
}

#[test]
fn tests_clear_zone_evicts_apex_and_subdomains() {
    let mut cache = cache();
    cache.insert("example.com", code(RecordType::A), vec![], Duration::from_secs(300), false);
    cache.insert("host.example.com", code(RecordType::A), vec![], Duration::from_secs(300), false);
    cache.insert("other.net", code(RecordType::A), vec![], Duration::from_secs(300), false);
    cache.clear_zone("example.com");
    assert!(cache.get("example.com", code(RecordType::A)).is_none());
    assert!(cache.get("host.example.com", code(RecordType::A)).is_none());
    assert!(cache.get("other.net", code(RecordType::A)).is_some());
}

#[test]
fn tests_clear_zone_does_not_evict_parent_zone() {
    let mut cache = cache();
    cache.insert("com", code(RecordType::NS), vec![], Duration::from_secs(300), false);
    cache.insert("example.com", code(RecordType::A), vec![], Duration::from_secs(300), false);
    cache.clear_zone("example.com");
    assert!(cache.get("com", code(RecordType::NS)).is_some());
}

#[test]
fn clear_zone_does_not_evict_similar_suffix() {
    let mut cache = cache();
    cache.insert("notexample.com", code(RecordType::A), vec![], Duration::from_secs(300), false);
    cache.insert("host.example.com.", code(RecordType::A), vec![], Duration::from_secs(300), false);
    cache.clear_zone("EXAMPLE.COM.");
    assert!(cache.get("notexample.com", code(RecordType::A)).is_some());
    assert!(cache.get("host.example.com", code(RecordType::A)).is_none());
}

#[test]
fn cache_capacity_is_bounded() {
    let mut cache = cache();
    for i in 0..5001 {
        cache.insert(
            &format!("host-{i}.test."),
            code(RecordType::A),
            vec![],
            Duration::from_secs(300),
            false,
        );
    }
    assert_eq!(cache.len(), 5000);
}

#[test]
fn full_cache_drops_oldest_entry() {
    let mut cache: DnsCache<u8> = DnsCache::new();
    for i in 0..5001 {
        cache.insert_at(&format!("h{i}"), 1, vec![], 1000, false, 0);
    }
    assert!(cache.get_at("h0", 1, 1).is_none());
    assert!(cache.get_at("h1", 1, 1).is_some());
    assert!(cache.get_at("h5000", 1, 1).is_some());
}

#[test]
fn expiry_is_exact_at_the_clock_boundary() {
    let mut cache: DnsCache<u8> = DnsCache::new();
    cache.insert_at("a.test", 1, vec![7], 1500, false, 1000);
    assert_eq!(cache.get_at("a.test", 1, 2499).map(|t| t.2.clone()), Some(vec![7]));
    assert!(cache.get_at("a.test", 1, 2500).is_none());
    let listed = cache.list_all_at(1100);
    assert_eq!(listed.len(), 1);
    assert_eq!(listed[0].2, 1);
    assert_eq!(cache.prune_at(2500), 1);
    assert!(cache.is_empty());
}

#[test]
fn cache_stats_record_hits_and_misses() {
    let mut stats = CacheStats::new();
    stats.record_hit();
    stats.record_hit();
    stats.record_miss();
    assert_eq!(stats.snapshot(), (2, 1));
}

#[test]
fn cache_stats_default_starts_at_zero() {
    assert_eq!(CacheStats::default().snapshot(), (0, 0));
}

#[test]
fn default_cache_is_empty() {
    let cache: DnsCache<Record> = DnsCache::default();
    assert!(cache.is_empty());
    assert_eq!(cache.len(), 0);
}

#[test]
fn legacy_cache_interface() {
    let mut cache: mydns::cache::DnsCache<u8> = mydns::cache::DnsCache::new();
    cache.insert("Example.com.", 1, vec![1], Duration::from_secs(300));
    cache.insertNegative("missing.example.", 1, Duration::from_secs(60));
    let (result, records) = cache.get("example.com.", 1).expect("hit");
    assert_eq!(result, mydns::cache::CacheResult::Positive);
    assert_eq!(records, &vec![1]);
    assert_eq!(cache.listAll().len(), 2);
    cache.removeName("EXAMPLE.COM.");
    assert_eq!(cache.len(), 1);
    let mut stats = mydns::cache::CacheStats::new();
    stats.recordHit();
    stats.recordMiss();
    stats.recordMiss();
    assert_eq!(stats.snapshot(), (1, 2));
}

#[test]
fn entry_expiry_by_the_clock() {
    let stale: CacheEntry<Record> =
        CacheEntry { records: Vec::new(), result: CacheResult::Negative, authoritative: false, expires_at: 0 };
    assert!(stale.is_expired());
    assert!(stale.isExpired());
    assert!(stale.is_expired_at(0));
    let fresh: CacheEntry<Record> =
        CacheEntry { records: Vec::new(), result: CacheResult::Positive, authoritative: true, expires_at: u64::MAX };
    assert!(!fresh.is_expired());
    assert!(!fresh.is_expired_at(u64::MAX - 1));
}
