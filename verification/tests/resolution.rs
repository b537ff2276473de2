use mydns::mydns::cache::CacheResult;
use mydns::mydns::db::cache::CacheRow;
use mydns::mydns::dns::cache_walk::{CacheWalk, WalkAction, WalkEvent};
use mydns::mydns::dns::record_index::IndexResolution;
use mydns::mydns::dns::resolution::{
    blocklist_answer, index_answer, isLoopbackPtrName, is_private_v4, is_private_v6, memory_answer, persistent_answer,
    response_for, synthetic_record, upstream_answer, CacheWrite, Generation, Pipeline, PipelineAction,
    ReplyKind, ResponseCode, Stage, SyntheticRecord,
};
use mydns::mydns::dns::upstream::UpstreamOutcome;

fn walk_stages(mut p: Pipeline) -> (Vec<Stage>, PipelineAction) {
    let mut out = Vec::new();
    loop {
        match p.next() {
            PipelineAction::Consult(s) => out.push(s),
            other => return (out, other),
        }
    }
}

#[test]
fn local_zone_queries_use_only_local_sources() {
    let (stages, last) = walk_stages(Pipeline::new(Generation::Current, true, true));
    assert_eq!(stages, vec![Stage::RecordIndex, Stage::SpecialRecords]);
    assert_eq!(last, PipelineAction::Reply(ReplyKind::NxDomain(true)));
}

#[test]
fn other_queries_check_the_blocklist_first_and_go_upstream_last() {
    let (stages, last) = walk_stages(Pipeline::new(Generation::Current, false, true));
    assert_eq!(
        stages,
        vec![Stage::Blocklist, Stage::MemoryCache, Stage::RecordIndex, Stage::PersistentCache, Stage::SpecialRecords]
    );
    assert_eq!(last, PipelineAction::AskUpstream);
    let (_, last) = walk_stages(Pipeline::new(Generation::Current, false, false));
    assert_eq!(last, PipelineAction::Reply(ReplyKind::NxDomain(false)));
    let (stages, _) = walk_stages(Pipeline::new(Generation::First, false, true));
    assert_eq!(stages, vec![Stage::MemoryCache, Stage::RecordIndex, Stage::PersistentCache, Stage::SpecialRecords]);
}

#[test]
fn source_findings_map_to_replies() {
    assert_eq!(blocklist_answer(true), Some(ReplyKind::NxDomain(false)));
    assert_eq!(blocklist_answer(false), None);
    assert_eq!(memory_answer(Some((CacheResult::Positive, true))), Some(ReplyKind::Positive(true)));
    assert_eq!(memory_answer(Some((CacheResult::Negative, true))), Some(ReplyKind::NxDomain(false)));
    assert_eq!(memory_answer(None), None);
    assert_eq!(index_answer(&IndexResolution::Found(vec![]), 0), None);
    assert_eq!(index_answer(&IndexResolution::Found(vec![]), 2), Some(ReplyKind::Positive(true)));
    assert_eq!(index_answer(&IndexResolution::Nodata, 0), Some(ReplyKind::Nodata(true)));
    assert_eq!(index_answer(&IndexResolution::Miss, 0), None);
    assert_eq!(index_answer(&IndexResolution::ServFail, 0), Some(ReplyKind::ServFail));
}

#[test]
fn upstream_outcomes_are_never_authoritative() {
    assert_eq!(upstream_answer(UpstreamOutcome::Positive(42)), (ReplyKind::Positive(false), CacheWrite::Records(42)));
    assert_eq!(upstream_answer(UpstreamOutcome::NxDomain), (ReplyKind::NxDomain(false), CacheWrite::Negative(60)));
    assert_eq!(upstream_answer(UpstreamOutcome::Nodata), (ReplyKind::Nodata(false), CacheWrite::Nothing));
    assert_eq!(upstream_answer(UpstreamOutcome::ServFail), (ReplyKind::ServFail, CacheWrite::Nothing));
}

#[test]
fn reply_kinds_set_response_headers() {
    assert_eq!(response_for(ReplyKind::Positive(true)), (ResponseCode::NoError, true, true));
    assert_eq!(response_for(ReplyKind::Nodata(false)), (ResponseCode::NoError, false, false));
    assert_eq!(response_for(ReplyKind::NxDomain(true)), (ResponseCode::NxDomain, true, false));
    assert_eq!(response_for(ReplyKind::ServFail), (ResponseCode::ServFail, false, false));
}

#[test]
fn loopback_reverse_names() {
    assert!(isLoopbackPtrName("1.0.0.127.in-addr.arpa"));
    assert!(isLoopbackPtrName("127.in-addr.arpa"));
    assert!(!isLoopbackPtrName("1.0.0.10.in-addr.arpa"));
    assert!(!isLoopbackPtrName("1.0.0.127.in-addr.arpa.example"));
    assert!(isLoopbackPtrName("1.0.0.0.0.0.0.0.0.0.0.0.0.0.0.0.0.0.0.0.0.0.0.0.0.0.0.0.0.0.0.0.ip6.arpa"));
    assert!(!isLoopbackPtrName("in-addr.arpa"));
}

#[test]
fn private_addresses() {
    assert!(is_private_v4([10, 1, 2, 3]));
    assert!(is_private_v4([172, 31, 0, 1]));
    assert!(!is_private_v4([172, 32, 0, 1]));
    assert!(is_private_v4([192, 168, 0, 1]));
    assert!(is_private_v4([169, 254, 9, 9]));
    assert!(!is_private_v4([8, 8, 8, 8]));
    assert!(is_private_v6(0xfd12));
    assert!(is_private_v6(0xfe80));
    assert!(!is_private_v6(0xfec0));
    assert!(!is_private_v6(0x2001));
}

#[test]
fn synthetic_answers() {
    assert_eq!(
        synthetic_record("1.0.0.127.in-addr.arpa", true, false, "mydns.local", false),
        Some(SyntheticRecord::LoopbackPtr)
    );
    assert_eq!(
        synthetic_record("mydns.local", false, true, "mydns.local", true),
        Some(SyntheticRecord::Dashboard { use_bind_host: true })
    );
    assert_eq!(synthetic_record("mydns.local", false, false, "mydns.local", true), None);
    assert_eq!(synthetic_record("other.local", false, true, "mydns.local", true), None);
}

fn row(value: &str, ttl: i64) -> CacheRow {
    CacheRow {
        id: 1,
        name: String::new(),
        record_type: String::new(),
        value: value.to_string(),
        ttl,
        expires_at: 0,
        priority: None,
    }
}

#[test]
fn cache_walk_follows_cnames_and_reports_links() {
    let (mut w, a) = CacheWalk::start("alias.example.com", false);
    assert!(matches!(a, WalkAction::FetchRows(ref n) if n == "alias.example.com"));
    let a = w.step(WalkEvent::Rows(Some(vec![]), 0));
    assert!(matches!(a, WalkAction::FetchCname(ref n) if n == "alias.example.com"));
    let a = w.step(WalkEvent::Cnames(Some(vec![row("target.example.com.", 120)])));
    assert!(matches!(a, WalkAction::FetchRows(ref n) if n == "target.example.com"));
    let a = w.step(WalkEvent::Rows(Some(vec![row("1.2.3.4", 60)]), 1));
    match a {
        WalkAction::Answer(links) => {
            assert_eq!(links.len(), 1);
            assert_eq!(links[0].owner, "alias.example.com");
            assert_eq!(links[0].value, "target.example.com.");
            assert_eq!(links[0].ttl, 120);
        }
        other => panic!("unexpected {:?}", other),
    }
}

#[test]
fn cache_walk_stops() {
    let (mut w, _) = CacheWalk::start("gone.example", false);
    assert!(matches!(w.step(WalkEvent::Rows(Some(vec![row("NX", 60)]), 0)), WalkAction::NxDomain));
    let (mut w, _) = CacheWalk::start("x.example", false);
    assert!(matches!(w.step(WalkEvent::Rows(None, 0)), WalkAction::ServFail));
    let (mut w, _) = CacheWalk::start("x.example", true);
    assert!(matches!(w.step(WalkEvent::Rows(Some(vec![]), 0)), WalkAction::NotFound));
    let (mut w, _) = CacheWalk::start("x.example", false);
    w.step(WalkEvent::Rows(Some(vec![row("bad", 1)]), 0));
    assert!(matches!(w.step(WalkEvent::Cnames(None)), WalkAction::NotFound));
}

#[test]
fn cache_walk_depth_is_bounded() {
    let (mut w, _) = CacheWalk::start("n0", false);
    let mut follows = 0;
    loop {
        let a = w.step(WalkEvent::Rows(Some(vec![]), 0));
        assert!(matches!(a, WalkAction::FetchCname(_)));
        match w.step(WalkEvent::Cnames(Some(vec![row(&format!("n{}.", follows + 1), 5)]))) {
            WalkAction::FetchRows(_) => follows += 1,
            WalkAction::ServFail => break,
            other => panic!("unexpected {:?}", other),
        }
    }
    assert_eq!(follows, 10);
}

#[test]
fn persistent_cache_answers_are_never_authoritative() {
    let (mut w, _) = CacheWalk::start("gone.example", false);
    let a = w.step(WalkEvent::Rows(Some(vec![row("NX", 60)]), 0));
    assert_eq!(persistent_answer(&a), Some(ReplyKind::NxDomain(false)));
    let (mut w, _) = CacheWalk::start("host.example", false);
    let a = w.step(WalkEvent::Rows(Some(vec![row("192.0.2.1", 60)]), 1));
    assert_eq!(persistent_answer(&a), Some(ReplyKind::Positive(false)));
    let (mut w, _) = CacheWalk::start("x.example", false);
    let a = w.step(WalkEvent::Rows(None, 0));
    assert_eq!(persistent_answer(&a), Some(ReplyKind::ServFail));
    let (mut w, _) = CacheWalk::start("x.example", true);
    let a = w.step(WalkEvent::Rows(Some(vec![]), 0));
    assert_eq!(persistent_answer(&a), None);
    let (mut w, _) = CacheWalk::start("n0", false);
    let mut last = WalkAction::NotFound;
    for i in 0..11 {
        w.step(WalkEvent::Rows(Some(vec![]), 0));
        last = w.step(WalkEvent::Cnames(Some(vec![row(&format!("n{}.", i + 1), 5)])));
        if matches!(last, WalkAction::ServFail) {
            break;
        }
    }
    assert_eq!(persistent_answer(&last), Some(ReplyKind::ServFail));
}
