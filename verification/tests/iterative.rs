use mydns::mydns::dns::iterative::{
    AdditionalRecord, AddressFamily, AuthorityRecord, IterAction, IterEvent, IterOutcome, Iteration,
    ReplyCode, ServerReply,
};
use mydns::mydns::dns::names::DomainName;

fn name(s: &str) -> DomainName {
    DomainName {
        labels: s
            .split('.')
            .filter(|l| !l.is_empty())
            .map(|l| l.as_bytes().to_vec())
            .collect(),
        fqdn: true,
    }
}

fn ns(owner: &str, target: &str) -> AuthorityRecord {
    AuthorityRecord { owner: name(owner), ns_target: Some(name(target)), is_soa: false }
}

fn soa(owner: &str) -> AuthorityRecord {
    AuthorityRecord { owner: name(owner), ns_target: None, is_soa: true }
}

fn glue(owner: &str, ip: u32) -> AdditionalRecord<u32> {
    AdditionalRecord { owner: name(owner), address: Some(ip) }
}

fn reply(
    ttls: Vec<u32>,
    code: ReplyCode,
    auths: Vec<AuthorityRecord>,
    adds: Vec<AdditionalRecord<u32>>,
) -> IterEvent<u32> {
    IterEvent::Reply(ServerReply { answer_ttls: ttls, code, authorities: auths, additionals: adds })
}

fn query_of(a: &IterAction<u32>) -> Option<(u32, u16)> {
    match a {
        IterAction::Query(s) => Some(*s),
        _ => None,
    }
}

fn outcome_of(a: &IterAction<u32>) -> Option<IterOutcome> {
    match a {
        IterAction::Finish(o) => Some(*o),
        _ => None,
    }
}

#[test]
fn referral_with_glue_descends_and_answer_takes_smallest_ttl() {
    let (mut it, a) = Iteration::start(name("www.example.com"), vec![(1, 53), (2, 53)], true);
    assert_eq!(query_of(&a), Some((1, 53)));
    let a = it.step(IterEvent::Timeout);
    assert_eq!(query_of(&a), Some((2, 53)));
    let a = it.step(reply(
        vec![],
        ReplyCode::NoError,
        vec![ns("COM", "a.gtld.net")],
        vec![glue("a.gtld.net", 9), glue("other.net", 8)],
    ));
    assert_eq!(query_of(&a), Some((9, 53)));
    let a = it.step(reply(vec![300, 60, 120], ReplyCode::NoError, vec![], vec![]));
    assert_eq!(outcome_of(&a), Some(IterOutcome::Answer(60)));
}

#[test]
fn out_of_bailiwick_referral_is_ignored() {
    let (mut it, _) = Iteration::start(name("www.example.com"), vec![(1, 53)], true);
    let a = it.step(reply(
        vec![],
        ReplyCode::NoError,
        vec![ns("org", "ns.evil.org")],
        vec![glue("ns.evil.org", 66)],
    ));
    assert_eq!(outcome_of(&a), Some(IterOutcome::ServFail));
}

#[test]
fn first_generation_takes_all_glue() {
    let (mut it, _) = Iteration::start(name("www.example.com"), vec![(1, 53)], false);
    let a = it.step(reply(
        vec![],
        ReplyCode::NoError,
        vec![ns("org", "ns.evil.org")],
        vec![glue("ns.evil.org", 66)],
    ));
    assert_eq!(query_of(&a), Some((66, 53)));
}

#[test]
fn unglued_referral_looks_up_name_server_addresses() {
    let (mut it, _) = Iteration::start(name("www.example.com"), vec![(1, 53)], true);
    let a = it.step(reply(vec![], ReplyCode::NoError, vec![ns("example.com", "ns1.example.net")], vec![]));
    match &a {
        IterAction::ResolveNs(n, AddressFamily::V4) => assert_eq!(n.labels[0], b"ns1".to_vec()),
        _ => panic!("expected an A lookup of the name server"),
    }
    let a = it.step(IterEvent::NsAddresses(vec![]));
    assert!(matches!(a, IterAction::ResolveNs(_, AddressFamily::V6)));
    let a = it.step(IterEvent::NsAddresses(vec![7]));
    assert_eq!(query_of(&a), Some((7, 53)));
}

#[test]
fn first_generation_looks_up_only_ipv4() {
    let (mut it, _) = Iteration::start(name("www.example.com"), vec![(1, 53)], false);
    let a = it.step(reply(vec![], ReplyCode::NoError, vec![ns("example.com", "ns1.example.net")], vec![]));
    assert!(matches!(a, IterAction::ResolveNs(_, AddressFamily::V4)));
    let a = it.step(IterEvent::NsAddresses(vec![5]));
    assert_eq!(query_of(&a), Some((5, 53)));
}

#[test]
fn nxdomain_and_nodata_end_the_resolution() {
    let (mut it, _) = Iteration::start(name("nope.example.com"), vec![(1, 53)], true);
    let a = it.step(reply(vec![], ReplyCode::NxDomain, vec![], vec![]));
    assert_eq!(outcome_of(&a), Some(IterOutcome::NxDomain));
    let (mut it, _) = Iteration::start(name("empty.example.com"), vec![(1, 53)], true);
    let a = it.step(reply(vec![], ReplyCode::NoError, vec![soa("example.com")], vec![]));
    assert_eq!(outcome_of(&a), Some(IterOutcome::Nodata));
}

#[test]
fn error_codes_and_timeouts_try_at_most_three_servers() {
    let hints = vec![(1, 53), (2, 53), (3, 53), (4, 53)];
    let (mut it, a) = Iteration::start(name("a.example"), hints, true);
    assert_eq!(query_of(&a), Some((1, 53)));
    let a = it.step(reply(vec![], ReplyCode::Other, vec![], vec![]));
    assert_eq!(query_of(&a), Some((2, 53)));
    let a = it.step(IterEvent::Timeout);
    assert_eq!(query_of(&a), Some((3, 53)));
    let a = it.step(IterEvent::Timeout);
    // One server replied (with an error code), so the level ends with no
    // referral to follow.
    assert_eq!(outcome_of(&a), Some(IterOutcome::ServFail));
}

#[test]
fn no_reply_at_a_level_is_servfail() {
    let (mut it, _) = Iteration::start(name("a.example"), vec![(1, 53)], true);
    assert_eq!(outcome_of(&it.step(IterEvent::Timeout)), Some(IterOutcome::ServFail));
    let (_, a) = Iteration::<u32>::start(name("a.example"), vec![], true);
    assert_eq!(outcome_of(&a), Some(IterOutcome::ServFail));
}

#[test]
fn delegation_depth_is_bounded() {
    let (mut it, mut a) = Iteration::start(name("deep.example"), vec![(1, 53)], true);
    let mut levels = 0;
    while query_of(&a).is_some() {
        levels += 1;
        a = it.step(reply(vec![], ReplyCode::NoError, vec![ns("example", "ns.example")], vec![glue("ns.example", 2)]));
    }
    assert_eq!(levels, 10);
    assert_eq!(outcome_of(&a), Some(IterOutcome::ServFail));
}
