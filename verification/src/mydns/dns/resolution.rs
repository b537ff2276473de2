//! The order in which a query consults the server's sources, and what each
//! source's finding answers.
//!
//! A name inside a local zone is answered from the record index and the
//! synthetic records alone, and is NXDOMAIN (authoritative) when neither has
//! it. Any other name consults, in order, the blocklist, the memory cache,
//! the record index, the persistent cache and the synthetic records; when
//! none answers it is forwarded upstream if recursion is desired, and is
//! NXDOMAIN otherwise. The first server generation had no blocklist.
use vstd::prelude::*;
use crate::mydns::cache::CacheResult;
use crate::names::{chars_of, same_text, split_labels, labels_view, split_dots};
use super::record_index::{IndexResolution, Resolved};
use super::upstream::UpstreamOutcome;
use super::cache_walk::WalkAction;

verus! {

broadcast use vstd::string::group_string_axioms;

/// A source of answers consulted before going upstream.
#[derive(Debug, Clone, Copy, PartialEq, Eq, Structural)]
pub enum Stage {
    Blocklist,
    MemoryCache,
    RecordIndex,
    PersistentCache,
    SpecialRecords,
}

/// Which server generation's order is followed.
#[derive(Debug, Clone, Copy, PartialEq, Eq, Structural)]
pub enum Generation {
    /// No blocklist.
    First,
    Current,
}

/// The kind of reply sent to the client, with the authoritative (AA) flag.
#[derive(Debug, Clone, Copy, PartialEq, Eq, Structural)]
pub enum ReplyKind {
    Positive(bool),
    Nodata(bool),
    NxDomain(bool),
    ServFail,
}

/// What to do next.
#[derive(Debug, Clone, Copy, PartialEq, Eq, Structural)]
pub enum PipelineAction {
    /// Ask this source; if it finds nothing, call `next` again.
    Consult(Stage),
    /// Forward the query upstream.
    AskUpstream,
    /// No source answered: reply with this.
    Reply(ReplyKind),
}

/// The sources consulted, in order.
pub open spec fn stages(generation: Generation, local_zone: bool) -> Seq<Stage> {
    if local_zone {
        seq![Stage::RecordIndex, Stage::SpecialRecords]
    } else {
        match generation {
            Generation::First => seq![
                Stage::MemoryCache,
                Stage::RecordIndex,
                Stage::PersistentCache,
                Stage::SpecialRecords,
            ],
            Generation::Current => seq![
                Stage::Blocklist,
                Stage::MemoryCache,
                Stage::RecordIndex,
                Stage::PersistentCache,
                Stage::SpecialRecords,
            ],
        }
    }
}

/// What happens once no source answered.
pub open spec fn fallback(local_zone: bool, recursion_desired: bool) -> PipelineAction {
    if local_zone {
        PipelineAction::Reply(ReplyKind::NxDomain(true))
    } else if !recursion_desired {
        PipelineAction::Reply(ReplyKind::NxDomain(false))
    } else {
        PipelineAction::AskUpstream
    }
}

/// The walk through the sources for one query.
pub struct Pipeline {
    generation: Generation,
    local_zone: bool,
    recursion_desired: bool,
    consulted: usize,
}

impl Pipeline {
    pub closed spec fn generation(&self) -> Generation {
        self.generation
    }

    pub closed spec fn local_zone(&self) -> bool {
        self.local_zone
    }

    pub closed spec fn recursion_desired(&self) -> bool {
        self.recursion_desired
    }

    /// How many sources have been handed out.
    pub closed spec fn consulted(&self) -> nat {
        self.consulted as nat
    }

    /// The action that follows `k` sources having found nothing.
    pub open spec fn action_after(&self, k: nat) -> PipelineAction {
        let st = stages(self.generation(), self.local_zone());
        if k < st.len() {
            PipelineAction::Consult(st[k as int])
        } else {
            fallback(self.local_zone(), self.recursion_desired())
        }
    }

    /// A walk for a query in (`local_zone`) or out of a local zone.
    pub fn new(generation: Generation, local_zone: bool, recursion_desired: bool) -> (p: Pipeline)
        ensures
            p.generation() == generation,
            p.local_zone() == local_zone,
            p.recursion_desired() == recursion_desired,
            p.consulted() == 0,
    {
        Pipeline { generation, local_zone, recursion_desired, consulted: 0 }
    }

    fn stage_at(&self, k: usize) -> (r: Option<Stage>)
        ensures
            match r {
                Some(st) => k < stages(self.generation(), self.local_zone()).len() && st == stages(
                    self.generation(),
                    self.local_zone(),
                )[k as int],
                None => k >= stages(self.generation(), self.local_zone()).len(),
            },
    {
        if self.local_zone {
            if k == 0 {
                Some(Stage::RecordIndex)
            } else if k == 1 {
                Some(Stage::SpecialRecords)
            } else {
                None
            }
        } else {
            match self.generation {
                Generation::First => if k == 0 {
                    Some(Stage::MemoryCache)
                } else if k == 1 {
                    Some(Stage::RecordIndex)
                } else if k == 2 {
                    Some(Stage::PersistentCache)
                } else if k == 3 {
                    Some(Stage::SpecialRecords)
                } else {
                    None
                },
                Generation::Current => if k == 0 {
                    Some(Stage::Blocklist)
                } else if k == 1 {
                    Some(Stage::MemoryCache)
                } else if k == 2 {
                    Some(Stage::RecordIndex)
                } else if k == 3 {
                    Some(Stage::PersistentCache)
                } else if k == 4 {
                    Some(Stage::SpecialRecords)
                } else {
                    None
                },
            }
        }
    }

    /// The next source to consult, or what to do when all found nothing.
    pub fn next(&mut self) -> (a: PipelineAction)
        ensures
            final(self).generation() == old(self).generation(),
            final(self).local_zone() == old(self).local_zone(),
            final(self).recursion_desired() == old(self).recursion_desired(),
            a == old(self).action_after(old(self).consulted()),
            a is Consult ==> final(self).consulted() == old(self).consulted() + 1,
            !(a is Consult) ==> final(self).consulted() == old(self).consulted(),
    {
        match self.stage_at(self.consulted) {
            Some(st) => {
                self.consulted = self.consulted + 1;
                PipelineAction::Consult(st)
            },
            None => if self.local_zone {
                PipelineAction::Reply(ReplyKind::NxDomain(true))
            } else if !self.recursion_desired {
                PipelineAction::Reply(ReplyKind::NxDomain(false))
            } else {
                PipelineAction::AskUpstream
            },
        }
    }
}

/// What the blocklist finding answers: a blocked name is NXDOMAIN, never
/// cached and never forwarded.
pub open spec fn blocklist_reply(blocked: bool) -> Option<ReplyKind> {
    if blocked {
        Some(ReplyKind::NxDomain(false))
    } else {
        None
    }
}

/// What the blocklist finding answers.
pub fn blocklist_answer(blocked: bool) -> (r: Option<ReplyKind>)
    ensures
        r == blocklist_reply(blocked),
{
    if blocked {
        Some(ReplyKind::NxDomain(false))
    } else {
        None
    }
}

/// What a memory-cache hit answers: a positive entry with its authoritative
/// flag, a negative entry as non-authoritative NXDOMAIN.
pub open spec fn memory_reply(hit: Option<(CacheResult, bool)>) -> Option<ReplyKind> {
    match hit {
        Some((CacheResult::Positive, aa)) => Some(ReplyKind::Positive(aa)),
        Some((CacheResult::Negative, _)) => Some(ReplyKind::NxDomain(false)),
        None => None,
    }
}

/// What a memory-cache lookup answers.
pub fn memory_answer(hit: Option<(CacheResult, bool)>) -> (r: Option<ReplyKind>)
    ensures
        r == memory_reply(hit),
{
    match hit {
        Some((CacheResult::Positive, aa)) => Some(ReplyKind::Positive(aa)),
        Some((CacheResult::Negative, _)) => Some(ReplyKind::NxDomain(false)),
        None => None,
    }
}

/// What a finished walk through the persistent cache answers: its answers
/// are never authoritative, a cached NXDOMAIN is NXDOMAIN, an unreadable
/// cache or too deep a CNAME chain is SERVFAIL, and otherwise the cache does
/// not answer.
pub open spec fn persistent_reply(a: WalkAction) -> Option<ReplyKind> {
    match a {
        WalkAction::Answer(_) => Some(ReplyKind::Positive(false)),
        WalkAction::NxDomain => Some(ReplyKind::NxDomain(false)),
        WalkAction::ServFail => Some(ReplyKind::ServFail),
        _ => None,
    }
}

/// What the persistent cache answers, once its walk has ended (the walk
/// asks for no more rows).
pub fn persistent_answer(a: &WalkAction) -> (r: Option<ReplyKind>)
    requires
        !(a is FetchRows),
        !(a is FetchCname),
    ensures
        r == persistent_reply(*a),
{
    match a {
        WalkAction::Answer(_) => Some(ReplyKind::Positive(false)),
        WalkAction::NxDomain => Some(ReplyKind::NxDomain(false)),
        WalkAction::ServFail => Some(ReplyKind::ServFail),
        _ => None,
    }
}

/// What the record index answers: found records are an authoritative answer
/// when at least one of them could be built into a DNS record (otherwise the
/// index is passed over); NODATA is authoritative; SERVFAIL stands.
pub open spec fn index_reply(res: Resolved, built: nat) -> Option<ReplyKind> {
    match res {
        Resolved::Found(_) => if built > 0 {
            Some(ReplyKind::Positive(true))
        } else {
            None
        },
        Resolved::Nodata => Some(ReplyKind::Nodata(true)),
        Resolved::Miss => None,
        Resolved::ServFail => Some(ReplyKind::ServFail),
    }
}

/// What the record index answers, given how many of the found records were
/// built into DNS records.
pub fn index_answer(res: &IndexResolution, built: usize) -> (r: Option<ReplyKind>)
    ensures
        r == index_reply(res@, built as nat),
{
    match res {
        IndexResolution::Found(_) => if built > 0 {
            Some(ReplyKind::Positive(true))
        } else {
            None
        },
        IndexResolution::Nodata => Some(ReplyKind::Nodata(true)),
        IndexResolution::Miss => None,
        IndexResolution::ServFail => Some(ReplyKind::ServFail),
    }
}

/// What is written to the caches after an upstream outcome.
#[derive(Debug, Clone, Copy, PartialEq, Eq, Structural)]
pub enum CacheWrite {
    /// Store the records in both caches for `ttl` seconds.
    Records(u32),
    /// Store a negative entry in the persistent cache for `ttl` seconds.
    Negative(u32),
    Nothing,
}

/// The reply to an upstream outcome and what is cached: records are stored
/// for their smallest TTL, NXDOMAIN is remembered for a minute, and nothing
/// upstream is authoritative.
pub open spec fn upstream_reply(o: UpstreamOutcome) -> (ReplyKind, CacheWrite) {
    match o {
        UpstreamOutcome::Positive(ttl) => (ReplyKind::Positive(false), CacheWrite::Records(ttl)),
        UpstreamOutcome::Nodata => (ReplyKind::Nodata(false), CacheWrite::Nothing),
        UpstreamOutcome::NxDomain => (ReplyKind::NxDomain(false), CacheWrite::Negative(60)),
        UpstreamOutcome::ServFail => (ReplyKind::ServFail, CacheWrite::Nothing),
    }
}

/// The reply to an upstream outcome and what is cached.
pub fn upstream_answer(o: UpstreamOutcome) -> (r: (ReplyKind, CacheWrite))
    ensures
        r == upstream_reply(o),
{
    match o {
        UpstreamOutcome::Positive(ttl) => (ReplyKind::Positive(false), CacheWrite::Records(ttl)),
        UpstreamOutcome::Nodata => (ReplyKind::Nodata(false), CacheWrite::Nothing),
        UpstreamOutcome::NxDomain => (ReplyKind::NxDomain(false), CacheWrite::Negative(60)),
        UpstreamOutcome::ServFail => (ReplyKind::ServFail, CacheWrite::Nothing),
    }
}

/// The response code of a reply.
#[derive(Debug, Clone, Copy, PartialEq, Eq, Structural)]
pub enum ResponseCode {
    NoError,
    NxDomain,
    ServFail,
}

/// The header of the response to a reply kind: its code, the AA flag, and
/// whether the answer section carries records. Recursion is always offered.
pub open spec fn response_header(k: ReplyKind) -> (ResponseCode, bool, bool) {
    match k {
        ReplyKind::Positive(aa) => (ResponseCode::NoError, aa, true),
        ReplyKind::Nodata(aa) => (ResponseCode::NoError, aa, false),
        ReplyKind::NxDomain(aa) => (ResponseCode::NxDomain, aa, false),
        ReplyKind::ServFail => (ResponseCode::ServFail, false, false),
    }
}

/// The header of the response to a reply kind.
pub fn response_for(k: ReplyKind) -> (r: (ResponseCode, bool, bool))
    ensures
        r == response_header(k),
{
    match k {
        ReplyKind::Positive(aa) => (ResponseCode::NoError, aa, true),
        ReplyKind::Nodata(aa) => (ResponseCode::NoError, aa, false),
        ReplyKind::NxDomain(aa) => (ResponseCode::NxDomain, aa, false),
        ReplyKind::ServFail => (ResponseCode::ServFail, false, false),
    }
}

/// The name of the IPv6 loopback address in the reverse tree.
pub open spec fn ipv6_loopback_ptr() -> Seq<char> {
    "1.0.0.0.0.0.0.0.0.0.0.0.0.0.0.0.0.0.0.0.0.0.0.0.0.0.0.0.0.0.0.0.ip6.arpa"@
}

/// A reverse (PTR) name of a loopback address: an IPv4 name whose last
/// label before `.in-addr.arpa` is `127`, or the IPv6 loopback name.
pub open spec fn is_loopback_ptr(name: Seq<char>) -> bool {
    let suffix = ".in-addr.arpa"@;
    ||| (name.len() >= suffix.len() && name.subrange(name.len() - suffix.len(), name.len() as int) == suffix
        && split_dots(name.subrange(0, name.len() - suffix.len())).last() == "127"@)
    ||| name == ipv6_loopback_ptr()
}

/// Whether `name` is the reverse name of a loopback address.
#[allow(non_snake_case)]
pub fn isLoopbackPtrName(name: &str) -> (b: bool)
    ensures
        b == is_loopback_ptr(name@),
{
    let cs = chars_of(name);
    let suffix = chars_of(".in-addr.arpa");
    let n = cs.len();
    let k = suffix.len();
    let mut ends = n >= k;
    if ends {
        let mut j: usize = 0;
        while j < k
            invariant
                n == cs.len(),
                k == suffix.len(),
                n >= k,
                j <= k,
                ends == forall|t: int| 0 <= t < j ==> cs@[n - k + t] == suffix@[t],
            decreases k - j,
        {
            if cs[n - k + j] != suffix[j] {
                ends = false;
            }
            j = j + 1;
        }
        assert(ends == (cs@.subrange(n - k, n as int) =~= suffix@));
    }
    if ends {
        let rest = crate::names::string_from_chars(&cs, 0, n - k);
        let labels = split_labels(rest.as_str());
        proof {
            crate::names::lemma_split_char_nonempty(rest@, '.');
        }
        let last = labels.len() - 1;
        if same_text(labels[last].as_str(), "127") {
            assert(labels_view(labels@).last() == labels@[last as int]@);
            return true;
        }
        assert(labels_view(labels@).last() == labels@[last as int]@);
    }
    same_text(name, "1.0.0.0.0.0.0.0.0.0.0.0.0.0.0.0.0.0.0.0.0.0.0.0.0.0.0.0.0.0.0.0.ip6.arpa")
}

/// A private (10/8, 172.16/12, 192.168/16) or link-local (169.254/16) IPv4
/// address, as `Ipv4Addr::is_private` and `is_link_local` define them.
pub open spec fn private_v4(o: Seq<u8>) -> bool {
    ||| o[0] == 10
    ||| (o[0] == 172 && 16 <= o[1] && o[1] <= 31)
    ||| (o[0] == 192 && o[1] == 168)
    ||| (o[0] == 169 && o[1] == 254)
}

/// A unique-local (fc00::/7) or link-local (fe80::/10) IPv6 address, by its
/// first 16-bit segment.
pub open spec fn private_v6(first_segment: u16) -> bool {
    ||| (first_segment & 0xfe00u16) == 0xfc00u16
    ||| (first_segment & 0xffc0u16) == 0xfe80u16
}

/// Whether the IPv4 address with octets `o` is private or link-local.
pub fn is_private_v4(o: [u8; 4]) -> (b: bool)
    ensures
        b == private_v4(o@),
{
    o[0] == 10 || (o[0] == 172 && 16 <= o[1] && o[1] <= 31) || (o[0] == 192 && o[1] == 168) || (o[0] == 169
        && o[1] == 254)
}

/// Whether the IPv6 address whose first segment is `first_segment` is
/// unique-local or link-local.
pub fn is_private_v6(first_segment: u16) -> (b: bool)
    ensures
        b == private_v6(first_segment),
{
    (first_segment & 0xfe00) == 0xfc00 || (first_segment & 0xffc0) == 0xfe80
}

/// A synthetic answer the server makes itself.
#[derive(Debug, Clone, Copy, PartialEq, Eq, Structural)]
pub enum SyntheticRecord {
    /// A PTR record to `localhost.` with a TTL of an hour.
    LoopbackPtr,
    /// The dashboard name resolves to the server's own address (for private
    /// clients) or to the loopback address (for others), with a TTL of a minute.
    Dashboard { use_bind_host: bool },
}

/// The synthetic answer for a query, if any: loopback reverse names, and the
/// dashboard name for A and AAAA queries.
pub open spec fn synthetic(
    name: Seq<char>,
    is_ptr: bool,
    is_address_type: bool,
    dashboard: Seq<char>,
    client_private: bool,
) -> Option<SyntheticRecord> {
    if is_ptr && is_loopback_ptr(name) {
        Some(SyntheticRecord::LoopbackPtr)
    } else if name == dashboard && is_address_type {
        Some(SyntheticRecord::Dashboard { use_bind_host: client_private })
    } else {
        None
    }
}

/// The synthetic answer for a query of `name`: `is_ptr` tells a PTR query,
/// `is_address_type` an A or AAAA query, and `client_private` whether the
/// client's address is private.
pub fn synthetic_record(
    name: &str,
    is_ptr: bool,
    is_address_type: bool,
    dashboard: &str,
    client_private: bool,
) -> (r: Option<SyntheticRecord>)
    ensures
        r == synthetic(name@, is_ptr, is_address_type, dashboard@, client_private),
{
    if is_ptr && isLoopbackPtrName(name) {
        Some(SyntheticRecord::LoopbackPtr)
    } else if same_text(name, dashboard) && is_address_type {
        Some(SyntheticRecord::Dashboard { use_bind_host: client_private })
    } else {
        None
    }
}


/// A query inside a local zone consults only the record index and the
/// synthetic records, never the blocklist, the caches or upstream, and is an
/// authoritative NXDOMAIN when neither answers.
pub proof fn lemma_local_zone_stays_local(generation: Generation, recursion_desired: bool)
    ensures
        forall|k: int|
            0 <= k < stages(generation, true).len() ==> (#[trigger] stages(generation, true)[k] == Stage::RecordIndex
                || stages(generation, true)[k] == Stage::SpecialRecords),
        fallback(true, recursion_desired) == PipelineAction::Reply(ReplyKind::NxDomain(true)),
{
}

/// Outside local zones the blocklist is consulted before any cache, so a
/// newly blocked name is never answered from a stale cache entry.
pub proof fn lemma_blocklist_before_caches()
    ensures
        stages(Generation::Current, false)[0] == Stage::Blocklist,
        forall|k: int|
            0 < k < stages(Generation::Current, false).len() ==> #[trigger] stages(Generation::Current, false)[k]
                != Stage::Blocklist,
{
}

/// Without recursion desired a query is never forwarded upstream.
pub proof fn lemma_no_upstream_without_recursion(local_zone: bool)
    ensures
        fallback(local_zone, false) is Reply,
{
}

/// Nothing learned upstream is answered as authoritative.
pub proof fn lemma_upstream_never_authoritative(o: UpstreamOutcome)
    ensures
        !(upstream_reply(o).0 matches ReplyKind::Positive(aa) && aa),
        !(upstream_reply(o).0 matches ReplyKind::Nodata(aa) && aa),
        !(upstream_reply(o).0 matches ReplyKind::NxDomain(aa) && aa),
{
}

/// A blocked name is answered NXDOMAIN without authority, whatever else is known of it.
pub proof fn lemma_blocked_is_nxdomain()
    ensures
        blocklist_reply(true) == Some(ReplyKind::NxDomain(false)),
{
}
} // verus!
