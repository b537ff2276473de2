use mydns::mydns::config::{ResolverMode, ResolverPriority};
use mydns::mydns::dns::names::DomainName;
use mydns::mydns::dns::upstream::{
    fallback_resolver, gateway_from_route_table, is_success, ordered_resolvers, parse_hex_u32, reply_matches,
    resolution_strategy, split_words, Forwarder, LookupResult, ReplyHeader, Strategy, UpstreamOutcome, ANY_TYPE,
};

#[test]
fn cloudflare_first_then_router() {
    assert_eq!(
        ordered_resolvers(ResolverPriority::CloudflareFirst, true),
        (Forwarder::Cloudflare, Some(Forwarder::Router))
    );
    assert_eq!(ordered_resolvers(ResolverPriority::CloudflareFirst, false), (Forwarder::Cloudflare, None));
    assert_eq!(
        ordered_resolvers(ResolverPriority::RouterFirst, true),
        (Forwarder::Router, Some(Forwarder::Cloudflare))
    );
    assert_eq!(ordered_resolvers(ResolverPriority::RouterFirst, false), (Forwarder::Cloudflare, None));
}

#[test]
fn only_nodata_and_servfail_fall_back() {
    let second = Some(Forwarder::Router);
    assert_eq!(fallback_resolver(UpstreamOutcome::Positive(30), second), None);
    assert_eq!(fallback_resolver(UpstreamOutcome::NxDomain, second), None);
    assert_eq!(fallback_resolver(UpstreamOutcome::Nodata, second), second);
    assert_eq!(fallback_resolver(UpstreamOutcome::ServFail, second), second);
    assert_eq!(fallback_resolver(UpstreamOutcome::ServFail, None), None);
}

#[test]
fn lookups_are_classified() {
    assert_eq!(LookupResult::Answers(vec![]).outcome(), UpstreamOutcome::Nodata);
    assert_eq!(LookupResult::Answers(vec![90, 30, 60]).outcome(), UpstreamOutcome::Positive(30));
    let nx = LookupResult::Failed { nx_domain: true, no_records: true };
    assert_eq!(nx.outcome(), UpstreamOutcome::NxDomain);
    let none = LookupResult::Failed { nx_domain: false, no_records: true };
    assert_eq!(none.outcome(), UpstreamOutcome::Nodata);
    let other = LookupResult::Failed { nx_domain: false, no_records: false };
    assert_eq!(other.outcome(), UpstreamOutcome::ServFail);
    assert!(is_success(UpstreamOutcome::Nodata));
    assert!(!is_success(UpstreamOutcome::ServFail));
}

#[test]
fn modes_choose_strategies() {
    assert_eq!(
        resolution_strategy(ResolverMode::Recursive, ResolverPriority::RouterFirst, true),
        Strategy::Iterate
    );
    assert_eq!(
        resolution_strategy(ResolverMode::Forwarding, ResolverPriority::RouterFirst, true),
        Strategy::Forward(Forwarder::Router, Some(Forwarder::Cloudflare))
    );
}

#[test]
fn words_and_hex() {
    assert_eq!(split_words("  eth0\t00000000  0101A8C0 \r"), vec!["eth0", "00000000", "0101A8C0"]);
    assert!(split_words(" \t ").is_empty());
    assert_eq!(parse_hex_u32("0101A8C0"), Some(0x0101_A8C0));
    assert_eq!(parse_hex_u32("+ff"), Some(255));
    assert_eq!(parse_hex_u32("ffffffff"), Some(u32::MAX));
    assert_eq!(parse_hex_u32("100000000"), None);
    assert_eq!(parse_hex_u32("xyz"), None);
    assert_eq!(parse_hex_u32(""), None);
    assert_eq!(parse_hex_u32("+"), None);
}

#[test]
fn gateway_is_read_from_route_table() {
    let table = "Iface\tDestination\tGateway \tFlags\n\
                 eth0\t0000FEA9\t00000000\t0001\n\
                 eth0\t00000000\t0101A8C0\t0003\n";
    assert_eq!(gateway_from_route_table(table), Some([192, 168, 1, 1]));
    assert_eq!(gateway_from_route_table("Iface\tDestination\tGateway\n"), None);
    // The header line is never a route.
    assert_eq!(gateway_from_route_table("x 00000000 0101A8C0\n"), None);
    // A malformed gateway ends the search.
    let bad = "h\neth0 00000000 zz\neth1 00000000 0101A8C0\n";
    assert_eq!(gateway_from_route_table(bad), None);
}

fn fqdn(s: &str) -> DomainName {
    DomainName { labels: s.split('.').filter(|l| !l.is_empty()).map(|l| l.as_bytes().to_vec()).collect(), fqdn: true }
}

fn header(id: u16, questions: Vec<(DomainName, u16)>) -> ReplyHeader {
    ReplyHeader { id, is_response: true, is_standard_query: true, questions }
}

#[test]
fn replies_must_answer_the_query_sent() {
    let q = fqdn("www.example.com");
    // Same id and question, the name compared without regard to case.
    assert!(reply_matches(&header(7, vec![(fqdn("WWW.Example.com"), 1)]), 7, &q, 1));
    // No question repeated.
    assert!(reply_matches(&header(7, vec![]), 7, &q, 1));
    // Another id, another name or another type is ignored.
    assert!(!reply_matches(&header(8, vec![(fqdn("www.example.com"), 1)]), 7, &q, 1));
    assert!(!reply_matches(&header(7, vec![(fqdn("mail.example.com"), 1)]), 7, &q, 1));
    assert!(!reply_matches(&header(7, vec![(fqdn("www.example.com"), 28)]), 7, &q, 1));
    // An ANY query accepts a question of any type.
    assert!(reply_matches(&header(7, vec![(fqdn("www.example.com"), 28)]), 7, &q, ANY_TYPE));
    // A query, or another opcode, is no reply.
    let mut h = header(7, vec![]);
    h.is_response = false;
    assert!(!reply_matches(&h, 7, &q, 1));
    let mut h = header(7, vec![]);
    h.is_standard_query = false;
    assert!(!reply_matches(&h, 7, &q, 1));
}
