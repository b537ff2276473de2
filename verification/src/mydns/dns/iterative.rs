//! Iterative resolution from the root servers, as a state machine: the
//! caller performs each query the machine asks for (to a name server, or a
//! forwarded lookup of a name server's address) and hands back what came of
//! it; the machine decides what to ask next and when the answer is final.
//!
//! At each delegation level up to three servers are tried in order. An
//! answer, an NXDOMAIN or an authoritative NODATA ends the resolution. A
//! referral contributes the NS names whose owner is a zone containing the
//! queried name (bailiwick), and the glue addresses of those names; the first
//! referral with glue moves to the next level. Without glue, the addresses of
//! up to two NS names are looked up (A, then AAAA). A level with no reply at
//! all, a referral that leads nowhere, or more than `MAX_RECURSION_DEPTH`
//! levels ends in SERVFAIL.
use vstd::prelude::*;
use super::names::{name_eq, zone_of, DomainName, NameView};

verus! {

/// The most delegation levels followed.
pub const MAX_RECURSION_DEPTH: usize = 10;

/// The most servers tried at one delegation level.
pub const SERVERS_PER_LEVEL: usize = 3;

/// The most NS names whose addresses are looked up when a referral has no glue.
pub const NS_LOOKUPS_PER_LEVEL: usize = 2;

/// The port name servers found by referral are queried on.
pub const DNS_PORT: u16 = 53;

/// The response code of a reply, as far as the resolver distinguishes it.
#[derive(Debug, Clone, Copy, PartialEq, Eq, Structural)]
pub enum ReplyCode {
    NoError,
    NxDomain,
    Other,
}

/// A record of a reply's authority section.
#[derive(Debug)]
pub struct AuthorityRecord {
    /// The record's owner name.
    pub owner: DomainName,
    /// The target of an NS record; `None` for other types.
    pub ns_target: Option<DomainName>,
    /// The record is an SOA record.
    pub is_soa: bool,
}

/// A record of a reply's additional section.
#[derive(Debug)]
pub struct AdditionalRecord<I> {
    /// The record's owner name.
    pub owner: DomainName,
    /// The address of an A or AAAA record; `None` for other types.
    pub address: Option<I>,
}

/// What a name server replied, as far as the resolver reads it.
#[derive(Debug)]
pub struct ServerReply<I> {
    /// The TTL of each answer record.
    pub answer_ttls: Vec<u32>,
    pub code: ReplyCode,
    pub authorities: Vec<AuthorityRecord>,
    pub additionals: Vec<AdditionalRecord<I>>,
}

/// Which address records of a name server are looked up.
#[derive(Debug, Clone, Copy, PartialEq, Eq, Structural)]
pub enum AddressFamily {
    V4,
    V6,
}

/// What came of the last action.
#[derive(Debug)]
pub enum IterEvent<I> {
    /// The queried server did not reply in time.
    Timeout,
    /// The queried server replied.
    Reply(ServerReply<I>),
    /// The addresses a name-server lookup found (empty when it failed).
    NsAddresses(Vec<I>),
}

/// How the resolution ended.
#[derive(Debug, Clone, Copy, PartialEq, Eq, Structural)]
pub enum IterOutcome {
    /// The last reply's answer section is the answer; `ttl` is its smallest TTL.
    Answer(u32),
    NxDomain,
    Nodata,
    ServFail,
}

/// What the caller must do next.
#[derive(Debug)]
pub enum IterAction<I> {
    /// Send the query to this server (address, port).
    Query((I, u16)),
    /// Look up the addresses of this name server through the forwarder.
    ResolveNs(DomainName, AddressFamily),
    /// The resolution is over.
    Finish(IterOutcome),
}

/// Where the machine stands at the current level.
#[derive(Debug, Clone, Copy, PartialEq, Eq, Structural)]
pub enum Phase {
    /// Waiting for the reply of the candidate server.
    Querying,
    /// Waiting for the addresses of NS name `index`, of `family`.
    ResolvingNs(usize, AddressFamily),
    /// The resolution is over.
    Done,
}

/// The state of an iterative resolution.
pub struct Iteration<I> {
    strict: bool,
    qname: DomainName,
    depth: usize,
    servers: Vec<(I, u16)>,
    candidate: usize,
    got_response: bool,
    next_servers: Vec<(I, u16)>,
    ns_names: Vec<DomainName>,
    phase: Phase,
}

/// The state of an iterative resolution as a mathematical value.
pub struct IterView<I> {
    pub strict: bool,
    pub qname: NameView,
    pub depth: nat,
    pub servers: Seq<(I, u16)>,
    pub candidate: nat,
    pub got_response: bool,
    pub next_servers: Seq<(I, u16)>,
    pub ns_names: Seq<NameView>,
    pub phase: Phase,
}

/// A reply as a mathematical value.
pub struct ReplyView<I> {
    pub answer_ttls: Seq<u32>,
    pub code: ReplyCode,
    pub authorities: Seq<(NameView, Option<NameView>, bool)>,
    pub additionals: Seq<(NameView, Option<I>)>,
}

/// An event as a mathematical value.
pub enum EventView<I> {
    Timeout,
    Reply(ReplyView<I>),
    NsAddresses(Seq<I>),
}

/// An action as a mathematical value.
pub enum ActionView<I> {
    Query((I, u16)),
    ResolveNs(NameView, AddressFamily),
    Finish(IterOutcome),
}

pub open spec fn names_view(v: Seq<DomainName>) -> Seq<NameView> {
    v.map_values(|n: DomainName| n@)
}

pub open spec fn authority_view(a: AuthorityRecord) -> (NameView, Option<NameView>, bool) {
    (
        a.owner@,
        match a.ns_target {
            Some(t) => Some(t@),
            None => None,
        },
        a.is_soa,
    )
}

pub open spec fn authorities_view(v: Seq<AuthorityRecord>) -> Seq<(NameView, Option<NameView>, bool)> {
    v.map_values(|a: AuthorityRecord| authority_view(a))
}

pub open spec fn additionals_view<I>(v: Seq<AdditionalRecord<I>>) -> Seq<(NameView, Option<I>)> {
    v.map_values(|a: AdditionalRecord<I>| additional_view(a))
}

pub open spec fn additional_view<I>(a: AdditionalRecord<I>) -> (NameView, Option<I>) {
    (a.owner@, a.address)
}

impl<I> View for ServerReply<I> {
    type V = ReplyView<I>;

    open spec fn view(&self) -> ReplyView<I> {
        ReplyView {
            answer_ttls: self.answer_ttls@,
            code: self.code,
            authorities: authorities_view(self.authorities@),
            additionals: additionals_view(self.additionals@),
        }
    }
}

impl<I> View for IterEvent<I> {
    type V = EventView<I>;

    open spec fn view(&self) -> EventView<I> {
        match self {
            IterEvent::Timeout => EventView::Timeout,
            IterEvent::Reply(r) => EventView::Reply(r@),
            IterEvent::NsAddresses(v) => EventView::NsAddresses(v@),
        }
    }
}

impl<I> View for IterAction<I> {
    type V = ActionView<I>;

    open spec fn view(&self) -> ActionView<I> {
        match self {
            IterAction::Query(s) => ActionView::Query(*s),
            IterAction::ResolveNs(n, f) => ActionView::ResolveNs(n@, *f),
            IterAction::Finish(o) => ActionView::Finish(*o),
        }
    }
}

impl<I> View for Iteration<I> {
    type V = IterView<I>;

    closed spec fn view(&self) -> IterView<I> {
        IterView {
            strict: self.strict,
            qname: self.qname@,
            depth: self.depth as nat,
            servers: self.servers@,
            candidate: self.candidate as nat,
            got_response: self.got_response,
            next_servers: self.next_servers@,
            ns_names: names_view(self.ns_names@),
            phase: self.phase,
        }
    }
}

/// The smallest of `ttls`, 300 when there are none.
pub open spec fn min_ttl(ttls: Seq<u32>) -> u32
    decreases ttls.len(),
{
    if ttls.len() == 0 {
        300
    } else if ttls.len() == 1 {
        ttls[0]
    } else {
        let m = min_ttl(ttls.drop_last());
        if ttls.last() < m {
            ttls.last()
        } else {
            m
        }
    }
}

/// The number of servers tried at a level with `n` servers.
pub open spec fn tried(n: nat) -> nat {
    if n < SERVERS_PER_LEVEL {
        n
    } else {
        SERVERS_PER_LEVEL as nat
    }
}

/// The authority section holds an SOA record.
pub open spec fn has_soa<I>(r: ReplyView<I>) -> bool {
    exists|i: int| 0 <= i < r.authorities.len() && (#[trigger] r.authorities[i]).2
}

/// The authority section holds an NS record.
pub open spec fn has_ns<I>(r: ReplyView<I>) -> bool {
    exists|i: int| 0 <= i < r.authorities.len() && (#[trigger] r.authorities[i]).1 is Some
}

/// The NS targets of `auths` in order; when `strict`, only those whose owner
/// is a zone containing `qname`.
pub open spec fn bailiwick_ns(auths: Seq<(NameView, Option<NameView>, bool)>, qname: NameView, strict: bool) -> Seq<
    NameView,
>
    decreases auths.len(),
{
    if auths.len() == 0 {
        Seq::empty()
    } else {
        let prev = bailiwick_ns(auths.drop_last(), qname, strict);
        let a = auths.last();
        match a.1 {
            Some(t) => if !strict || zone_of(a.0, qname) {
                prev.push(t)
            } else {
                prev
            },
            None => prev,
        }
    }
}

/// `n` equals one of `names`.
pub open spec fn listed(names: Seq<NameView>, n: NameView) -> bool {
    exists|i: int| 0 <= i < names.len() && name_eq(#[trigger] names[i], n)
}

/// The servers (address, port 53) given by the A/AAAA records of `adds`, in
/// order; when `strict`, only those owned by one of `names`.
pub open spec fn glue_servers<I>(adds: Seq<(NameView, Option<I>)>, names: Seq<NameView>, strict: bool) -> Seq<
    (I, u16),
>
    decreases adds.len(),
{
    if adds.len() == 0 {
        Seq::empty()
    } else {
        let prev = glue_servers(adds.drop_last(), names, strict);
        let a = adds.last();
        match a.1 {
            Some(ip) => if !strict || listed(names, a.0) {
                prev.push((ip, DNS_PORT))
            } else {
                prev
            },
            None => prev,
        }
    }
}

/// Each address on port 53.
pub open spec fn on_dns_port<I>(ips: Seq<I>) -> Seq<(I, u16)> {
    ips.map_values(|ip: I| (ip, DNS_PORT))
}

/// The finished state.
pub open spec fn finished<I>(s: IterView<I>) -> IterView<I> {
    IterView { phase: Phase::Done, ..s }
}

/// Starting the level whose servers are `s.servers`.
pub open spec fn begin_level<I>(s: IterView<I>) -> (IterView<I>, ActionView<I>) {
    if s.servers.len() > 0 {
        (IterView { candidate: 0, phase: Phase::Querying, ..s }, ActionView::Query(s.servers[0]))
    } else {
        (finished(s), ActionView::Finish(IterOutcome::ServFail))
    }
}

/// Moving to the next level, whose servers are `s.next_servers`.
pub open spec fn descend<I>(s: IterView<I>) -> (IterView<I>, ActionView<I>) {
    if s.depth + 1 < MAX_RECURSION_DEPTH {
        begin_level(
            IterView {
                depth: s.depth + 1,
                servers: s.next_servers,
                candidate: 0,
                got_response: false,
                next_servers: Seq::empty(),
                ns_names: Seq::empty(),
                ..s
            },
        )
    } else {
        (finished(s), ActionView::Finish(IterOutcome::ServFail))
    }
}

/// Looking up the addresses of NS name `k` onward.
pub open spec fn resolve_ns_from<I>(s: IterView<I>, k: nat) -> (IterView<I>, ActionView<I>) {
    if k < NS_LOOKUPS_PER_LEVEL && k < s.ns_names.len() {
        (
            IterView { phase: Phase::ResolvingNs(k as usize, AddressFamily::V4), ..s },
            ActionView::ResolveNs(s.ns_names[k as int], AddressFamily::V4),
        )
    } else {
        (finished(s), ActionView::Finish(IterOutcome::ServFail))
    }
}

/// The end of the level's server queries.
pub open spec fn conclude_level<I>(s: IterView<I>) -> (IterView<I>, ActionView<I>) {
    if !s.got_response {
        (finished(s), ActionView::Finish(IterOutcome::ServFail))
    } else if s.next_servers.len() > 0 {
        descend(s)
    } else {
        resolve_ns_from(s, 0)
    }
}

/// Trying the next candidate server of the level, or ending the level.
pub open spec fn advance<I>(s: IterView<I>) -> (IterView<I>, ActionView<I>) {
    if s.candidate + 1 < tried(s.servers.len()) {
        (
            IterView { candidate: s.candidate + 1, ..s },
            ActionView::Query(s.servers[s.candidate + 1 as int]),
        )
    } else {
        conclude_level(s)
    }
}

/// What a referral adds: strictly, the in-bailiwick NS names and then the
/// glue of all NS names gathered at the level; otherwise all glue, and all
/// NS names when the reply has no glue.
pub open spec fn referral<I>(s: IterView<I>, r: ReplyView<I>) -> IterView<I> {
    if s.strict {
        let ns = s.ns_names + bailiwick_ns(r.authorities, s.qname, true);
        IterView { ns_names: ns, next_servers: s.next_servers + glue_servers(r.additionals, ns, true), ..s }
    } else {
        let next = s.next_servers + glue_servers(r.additionals, s.ns_names, false);
        let ns = if next.len() == 0 {
            s.ns_names + bailiwick_ns(r.authorities, s.qname, false)
        } else {
            s.ns_names
        };
        IterView { ns_names: ns, next_servers: next, ..s }
    }
}

/// The effect of a reply from the candidate server.
pub open spec fn on_reply<I>(s: IterView<I>, r: ReplyView<I>) -> (IterView<I>, ActionView<I>) {
    let s1 = IterView { got_response: true, ..s };
    if r.answer_ttls.len() > 0 {
        (finished(s1), ActionView::Finish(IterOutcome::Answer(min_ttl(r.answer_ttls))))
    } else {
        match r.code {
            ReplyCode::NxDomain => (finished(s1), ActionView::Finish(IterOutcome::NxDomain)),
            ReplyCode::Other => advance(s1),
            ReplyCode::NoError => if has_soa(r) && !has_ns(r) {
                (finished(s1), ActionView::Finish(IterOutcome::Nodata))
            } else {
                let s2 = referral(s1, r);
                let next = s2.next_servers;
                if next.len() > 0 {
                    conclude_level(s2)
                } else {
                    advance(s2)
                }
            },
        }
    }
}

/// The effect of the addresses found for NS name `k`.
pub open spec fn on_ns_addresses<I>(s: IterView<I>, k: nat, family: AddressFamily, ips: Seq<I>) -> (
    IterView<I>,
    ActionView<I>,
) {
    let s1 = IterView { next_servers: s.next_servers + on_dns_port(ips), ..s };
    match family {
        AddressFamily::V4 => if s.strict {
            (
            IterView { phase: Phase::ResolvingNs(k as usize, AddressFamily::V6), ..s1 },
            ActionView::ResolveNs(s.ns_names[k as int], AddressFamily::V6),
            )
        } else if s1.next_servers.len() > 0 {
            descend(s1)
        } else {
            resolve_ns_from(s1, k + 1)
        },
        AddressFamily::V6 => if s1.next_servers.len() > 0 {
            descend(s1)
        } else {
            resolve_ns_from(s1, k + 1)
        },
    }
}

/// The transition of the machine on an event.
pub open spec fn iter_step<I>(s: IterView<I>, e: EventView<I>) -> (IterView<I>, ActionView<I>) {
    match s.phase {
        Phase::Querying => match e {
            EventView::Timeout => advance(s),
            EventView::Reply(r) => on_reply(s, r),
            EventView::NsAddresses(_) => (s, ActionView::Finish(IterOutcome::ServFail)),
        },
        Phase::ResolvingNs(k, f) => match e {
            EventView::NsAddresses(ips) => on_ns_addresses(s, k as nat, f, ips),
            _ => (s, ActionView::Finish(IterOutcome::ServFail)),
        },
        Phase::Done => (s, ActionView::Finish(IterOutcome::ServFail)),
    }
}

/// The event is of the kind the machine waits for.
pub open spec fn expects<I>(s: IterView<I>, e: EventView<I>) -> bool {
    match s.phase {
        Phase::Querying => !(e is NsAddresses),
        Phase::ResolvingNs(_, _) => e is NsAddresses,
        Phase::Done => false,
    }
}

/// The state invariant: the level and candidate are in range, and a lookup
/// in progress names one of the first two NS names.
pub open spec fn iter_wf<I>(s: IterView<I>) -> bool {
    &&& s.depth < MAX_RECURSION_DEPTH
    &&& match s.phase {
        Phase::Querying => s.candidate < tried(s.servers.len()),
        Phase::ResolvingNs(k, _) => k < NS_LOOKUPS_PER_LEVEL && k < s.ns_names.len(),
        Phase::Done => true,
    }
}

/// The minimum of `ttls`, 300 when there are none.
pub fn smallest_ttl(ttls: &Vec<u32>) -> (m: u32)
    ensures
        m == min_ttl(ttls@),
{
    if ttls.len() == 0 {
        return 300;
    }
    let mut m = ttls[0];
    let mut i: usize = 1;
    assert(ttls@.take(1) =~= seq![ttls@[0]]);
    while i < ttls.len()
        invariant
            1 <= i <= ttls.len(),
            m == min_ttl(ttls@.take(i as int)),
        decreases ttls.len() - i,
    {
        assert(ttls@.take(i + 1).drop_last() == ttls@.take(i as int));
        assert(ttls@.take(i + 1).last() == ttls@[i as int]);
        if ttls[i] < m {
            m = ttls[i];
        }
        i = i + 1;
    }
    assert(ttls@.take(ttls.len() as int) == ttls@);
    m
}

/// `n` equals one of `names`.
fn is_listed(names: &Vec<DomainName>, n: &DomainName) -> (b: bool)
    ensures
        b == listed(names_view(names@), n@),
{
    let mut i: usize = 0;
    while i < names.len()
        invariant
            i <= names.len(),
            forall|k: int| 0 <= k < i ==> !name_eq(#[trigger] names_view(names@)[k], n@),
        decreases names.len() - i,
    {
        if names[i].equals(n) {
            assert(name_eq(names_view(names@)[i as int], n@));
            return true;
        }
        i = i + 1;
    }
    false
}

impl<I: Copy> Iteration<I> {
    /// The state invariant.
    pub closed spec fn wf(&self) -> bool {
        iter_wf(self@)
    }

    /// The machine waits for an event of this kind.
    pub open spec fn expects(&self, e: EventView<I>) -> bool {
        expects(self@, e)
    }

    /// Starts resolving `qname` from `root_hints`: the first action queries
    /// the first hint, or fails when there is none. `strict` selects the
    /// current rules (bailiwick checks, AAAA lookups of name servers); without
    /// it the first generation's rules apply (all glue and NS names are taken,
    /// name servers are looked up by A records only).
    pub fn start(qname: DomainName, root_hints: Vec<(I, u16)>, strict: bool) -> (r: (Iteration<I>, IterAction<I>))
        ensures
            r.0.wf(),
            (r.0@, r.1@) == begin_level(
                IterView {
                    strict,
                    qname: qname@,
                    depth: 0,
                    servers: root_hints@,
                    candidate: 0,
                    got_response: false,
                    next_servers: Seq::empty(),
                    ns_names: Seq::empty(),
                    phase: Phase::Querying,
                },
            ),
    {
        let mut it = Iteration {
            strict,
            qname,
            depth: 0,
            servers: root_hints,
            candidate: 0,
            got_response: false,
            next_servers: Vec::new(),
            ns_names: Vec::new(),
            phase: Phase::Querying,
        };
        assert(names_view(it.ns_names@) =~= Seq::<NameView>::empty());
        let a = it.begin_level();
        (it, a)
    }

    fn begin_level(&mut self) -> (a: IterAction<I>)
        requires
            old(self)@.depth < MAX_RECURSION_DEPTH,
        ensures
            final(self).wf(),
            (final(self)@, a@) == begin_level(old(self)@),
    {
        if self.servers.len() > 0 {
            self.candidate = 0;
            self.phase = Phase::Querying;
            IterAction::Query(self.servers[0])
        } else {
            self.phase = Phase::Done;
            IterAction::Finish(IterOutcome::ServFail)
        }
    }

    fn descend(&mut self) -> (a: IterAction<I>)
        requires
            old(self)@.depth < MAX_RECURSION_DEPTH,
        ensures
            final(self).wf(),
            (final(self)@, a@) == descend(old(self)@),
    {
        if self.depth + 1 < MAX_RECURSION_DEPTH {
            self.depth = self.depth + 1;
            let mut next: Vec<(I, u16)> = Vec::new();
            std::mem::swap(&mut next, &mut self.next_servers);
            self.servers = next;
            self.candidate = 0;
            self.got_response = false;
            self.ns_names = Vec::new();
            assert(names_view(self.ns_names@) =~= Seq::<NameView>::empty());
            assert(self.next_servers@ =~= Seq::<(I, u16)>::empty());
            self.begin_level()
        } else {
            self.phase = Phase::Done;
            IterAction::Finish(IterOutcome::ServFail)
        }
    }

    fn resolve_ns_from(&mut self, k: usize) -> (a: IterAction<I>)
        requires
            old(self)@.depth < MAX_RECURSION_DEPTH,
        ensures
            final(self).wf(),
            (final(self)@, a@) == resolve_ns_from(old(self)@, k as nat),
    {
        if k < NS_LOOKUPS_PER_LEVEL && k < self.ns_names.len() {
            self.phase = Phase::ResolvingNs(k, AddressFamily::V4);
            let n = self.ns_names[k].copy();
            IterAction::ResolveNs(n, AddressFamily::V4)
        } else {
            self.phase = Phase::Done;
            IterAction::Finish(IterOutcome::ServFail)
        }
    }

    fn conclude_level(&mut self) -> (a: IterAction<I>)
        requires
            old(self)@.depth < MAX_RECURSION_DEPTH,
        ensures
            final(self).wf(),
            (final(self)@, a@) == conclude_level(old(self)@),
    {
        if !self.got_response {
            self.phase = Phase::Done;
            IterAction::Finish(IterOutcome::ServFail)
        } else if self.next_servers.len() > 0 {
            self.descend()
        } else {
            self.resolve_ns_from(0)
        }
    }

    fn advance(&mut self) -> (a: IterAction<I>)
        requires
            old(self)@.depth < MAX_RECURSION_DEPTH,
            old(self)@.phase == Phase::Querying,
        ensures
            final(self).wf(),
            (final(self)@, a@) == advance(old(self)@),
    {
        let limit = if self.servers.len() < SERVERS_PER_LEVEL {
            self.servers.len()
        } else {
            SERVERS_PER_LEVEL
        };
        if self.candidate < limit && self.candidate + 1 < limit {
            self.candidate = self.candidate + 1;
            IterAction::Query(self.servers[self.candidate])
        } else {
            self.conclude_level()
        }
    }

    /// Adds the NS targets of `auths` to the NS names (only the in-bailiwick
    /// ones when strict).
    fn gather_ns(&mut self, auths: Vec<AuthorityRecord>)
        ensures
            final(self)@ == (IterView {
                ns_names: old(self)@.ns_names + bailiwick_ns(
                    authorities_view(auths@),
                    old(self)@.qname,
                    old(self)@.strict,
                ),
                ..old(self)@
            }),
    {
        let ghost av = authorities_view(auths@);
        let ghost start = names_view(self.ns_names@);
        let mut rest = auths;
        let mut i: usize = 0;
        let n = rest.len();
        assert(av.take(0) =~= Seq::<(NameView, Option<NameView>, bool)>::empty());
        assert(start + bailiwick_ns(av.take(0), self.qname@, self.strict) =~= start);
        assert(authorities_view(rest@) =~= av.skip(0));
        while rest.len() > 0
            invariant
                i <= n == av.len(),
                authorities_view(rest@) == av.skip(i as int),
                names_view(self.ns_names@) == start + bailiwick_ns(av.take(i as int), self.qname@, self.strict),
                self.strict == old(self).strict,
                self.qname@ == old(self)@.qname,
                self.depth == old(self).depth,
                self.servers@ == old(self).servers@,
                self.candidate == old(self).candidate,
                self.got_response == old(self).got_response,
                self.next_servers@ == old(self).next_servers@,
                self.phase == old(self).phase,
                start == names_view(old(self).ns_names@),
            decreases rest.len(),
        {
            let ghost prev = rest@;
            assert(i < n) by {
                assert(av.skip(i as int).len() == rest.len());
            }
            let a = rest.remove(0);
            assert(authority_view(a) == av[i as int]) by {
                assert(authorities_view(prev)[0] == authority_view(prev[0]));
                assert(av.skip(i as int)[0] == av[i as int]);
            }
            assert(authorities_view(prev).len() == prev.len());
            assert(av.skip(i as int).len() == prev.len());
            assert(rest@.len() == prev.len() - 1);
            assert(authorities_view(rest@) =~= av.skip(i + 1)) by {
                assert forall|k: int| 0 <= k < rest@.len() implies #[trigger] authorities_view(rest@)[k] == av.skip(i + 1)[k] by {
                    assert(rest@[k] == prev[k + 1]);
                    assert(authorities_view(prev)[k + 1] == authority_view(
                        prev[k + 1],
                    ));
                    assert(av.skip(i as int)[k + 1] == av.skip(i + 1)[k]);
                }
                assert(rest@.len() == prev.len() - 1);
            }
            assert(av.take(i + 1).drop_last() == av.take(i as int));
            assert(av.take(i + 1).last() == av[i as int]);
            match a.ns_target {
                Some(t) => {
                    if !self.strict || a.owner.is_zone_of(&self.qname) {
                        let ghost before = names_view(self.ns_names@);
                        self.ns_names.push(t);
                        assert(names_view(self.ns_names@) =~= before.push(t@));
                    }
                },
                None => {},
            }
            i = i + 1;
        }
        assert(i == n) by {
            assert(av.skip(i as int).len() == 0);
        }
        assert(av.take(n as int) == av);
    }

    /// Adds the servers given by glue (for the NS names, when strict) to the
    /// next servers.
    fn gather_glue(&mut self, adds: Vec<AdditionalRecord<I>>)
        ensures
            final(self)@ == (IterView {
                next_servers: old(self)@.next_servers + glue_servers(
                    additionals_view(adds@),
                    old(self)@.ns_names,
                    old(self)@.strict,
                ),
                ..old(self)@
            }),
    {
        let ghost av = additionals_view(adds@);
        let ghost start = self.next_servers@;
        let mut i: usize = 0;
        assert(av.take(0) =~= Seq::<(NameView, Option<I>)>::empty());
        assert(start + glue_servers(av.take(0), self@.ns_names, self.strict) =~= start);
        while i < adds.len()
            invariant
                i <= adds.len() == av.len(),
                av == additionals_view(adds@),
                self.next_servers@ == start + glue_servers(av.take(i as int), names_view(self.ns_names@), self.strict),
                self.strict == old(self).strict,
                self.qname@ == old(self)@.qname,
                self.depth == old(self).depth,
                self.servers@ == old(self).servers@,
                self.candidate == old(self).candidate,
                self.got_response == old(self).got_response,
                names_view(self.ns_names@) == names_view(old(self).ns_names@),
                self.phase == old(self).phase,
                start == old(self).next_servers@,
            decreases adds.len() - i,
        {
            assert(av.take(i + 1).drop_last() == av.take(i as int));
            assert(av.take(i + 1).last() == av[i as int]);
            assert(av[i as int] == additional_view(adds@[i as int]));
            match adds[i].address {
                Some(ip) => {
                    if !self.strict || is_listed(&self.ns_names, &adds[i].owner) {
                        let ghost before = self.next_servers@;
                        self.next_servers.push((ip, DNS_PORT));
                        assert(self.next_servers@ =~= before.push((ip, DNS_PORT)));
                    }
                },
                None => {},
            }
            i = i + 1;
        }
        assert(av.take(adds.len() as int) == av);
    }

    /// Whether the authority section holds an SOA record, and an NS record.
    fn soa_and_ns(auths: &Vec<AuthorityRecord>) -> (r: (bool, bool))
        ensures
            r.0 == exists|i: int| 0 <= i < auths@.len() && (#[trigger] auths@[i]).is_soa,
            r.1 == exists|i: int| 0 <= i < auths@.len() && (#[trigger] auths@[i]).ns_target is Some,
    {
        let mut soa = false;
        let mut ns = false;
        let mut i: usize = 0;
        while i < auths.len()
            invariant
                i <= auths.len(),
                soa == exists|k: int| 0 <= k < i && (#[trigger] auths@[k]).is_soa,
                ns == exists|k: int| 0 <= k < i && (#[trigger] auths@[k]).ns_target is Some,
            decreases auths.len() - i,
        {
            if auths[i].is_soa {
                soa = true;
            }
            if auths[i].ns_target.is_some() {
                ns = true;
            }
            i = i + 1;
        }
        (soa, ns)
    }

    fn on_reply(&mut self, reply: ServerReply<I>) -> (a: IterAction<I>)
        requires
            iter_wf(old(self)@),
            old(self)@.phase == Phase::Querying,
        ensures
            final(self).wf(),
            (final(self)@, a@) == on_reply(old(self)@, reply@),
    {
        let ghost r = reply@;
        self.got_response = true;
        if reply.answer_ttls.len() > 0 {
            self.phase = Phase::Done;
            return IterAction::Finish(IterOutcome::Answer(smallest_ttl(&reply.answer_ttls)));
        }
        match reply.code {
            ReplyCode::NxDomain => {
                self.phase = Phase::Done;
                IterAction::Finish(IterOutcome::NxDomain)
            },
            ReplyCode::Other => self.advance(),
            ReplyCode::NoError => {
                let (soa, ns) = Self::soa_and_ns(&reply.authorities);
                assert(soa == has_soa(r)) by {
                    if soa {
                        let k = choose|k: int| 0 <= k < reply.authorities@.len() && (#[trigger] reply.authorities@[k]).is_soa;
                        assert(r.authorities[k].2);
                    }
                    if has_soa(r) {
                        let k = choose|k: int| 0 <= k < r.authorities.len() && (#[trigger] r.authorities[k]).2;
                        assert(reply.authorities@[k].is_soa);
                    }
                }
                assert(ns == has_ns(r)) by {
                    if ns {
                        let k = choose|k: int| 0 <= k < reply.authorities@.len() && (#[trigger] reply.authorities@[k]).ns_target is Some;
                        assert(r.authorities[k].1 is Some);
                    }
                    if has_ns(r) {
                        let k = choose|k: int| 0 <= k < r.authorities.len() && (#[trigger] r.authorities[k]).1 is Some;
                        assert(reply.authorities@[k].ns_target is Some);
                    }
                }
                if soa && !ns {
                    self.phase = Phase::Done;
                    return IterAction::Finish(IterOutcome::Nodata);
                }
                let ServerReply { answer_ttls: _, code: _, authorities, additionals } = reply;
                if self.strict {
                    self.gather_ns(authorities);
                    self.gather_glue(additionals);
                } else {
                    self.gather_glue(additionals);
                    if self.next_servers.len() == 0 {
                        self.gather_ns(authorities);
                    }
                }
                if self.next_servers.len() > 0 {
                    self.conclude_level()
                } else {
                    self.advance()
                }
            },
        }
    }

    /// Advances the machine by the outcome of the action it asked for.
    pub fn step(&mut self, event: IterEvent<I>) -> (a: IterAction<I>)
        requires
            old(self).wf(),
            old(self).expects(event@),
        ensures
            final(self).wf(),
            (final(self)@, a@) == iter_step(old(self)@, event@),
    {
        match event {
            IterEvent::Timeout => self.advance(),
            IterEvent::Reply(reply) => self.on_reply(reply),
            IterEvent::NsAddresses(ips) => {
                let (k, family) = match self.phase {
                    Phase::ResolvingNs(k, f) => (k, f),
                    _ => {
                        return IterAction::Finish(IterOutcome::ServFail);
                    },
                };
                let ghost before = self.next_servers@;
                let mut j: usize = 0;
                while j < ips.len()
                    invariant
                        j <= ips.len(),
                        self.next_servers@ == before + on_dns_port(ips@.take(j as int)),
                        self.strict == old(self).strict,
                        self.qname@ == old(self)@.qname,
                        self.depth == old(self).depth,
                        self.servers@ == old(self).servers@,
                        self.candidate == old(self).candidate,
                        self.got_response == old(self).got_response,
                        names_view(self.ns_names@) == names_view(old(self).ns_names@),
                        self.phase == old(self).phase,
                        before == old(self).next_servers@,
                    decreases ips.len() - j,
                {
                    self.next_servers.push((ips[j], DNS_PORT));
                    assert(on_dns_port(ips@.take(j + 1)) =~= on_dns_port(ips@.take(j as int)).push((ips@[j as int], DNS_PORT)));
                    j = j + 1;
                }
                assert(ips@.take(ips.len() as int) == ips@);
                match family {
                    AddressFamily::V4 if self.strict => {
                        self.phase = Phase::ResolvingNs(k, AddressFamily::V6);
                        IterAction::ResolveNs(self.ns_names[k].copy(), AddressFamily::V6)
                    },
                    AddressFamily::V4 => {
                        if self.next_servers.len() > 0 {
                            self.descend()
                        } else {
                            self.resolve_ns_from(k + 1)
                        }
                    },
                    AddressFamily::V6 => {
                        if self.next_servers.len() > 0 {
                            self.descend()
                        } else {
                            self.resolve_ns_from(k + 1)
                        }
                    },
                }
            },
        }
    }
}


/// How far a level has still to go: the three candidate queries come first,
/// then up to two A and two AAAA lookups of name servers.
pub open spec fn level_work(phase: Phase, candidate: nat) -> nat {
    match phase {
        Phase::Querying => if candidate < 10 {
            (10 - candidate) as nat
        } else {
            0
        },
        Phase::ResolvingNs(k, AddressFamily::V4) => if k < 2 {
            (4 - 2 * k) as nat
        } else {
            0
        },
        Phase::ResolvingNs(k, AddressFamily::V6) => if k < 2 {
            (3 - 2 * k) as nat
        } else {
            0
        },
        Phase::Done => 0,
    }
}

/// An upper bound on the steps left before the resolution finishes.
pub open spec fn remaining_work<I>(s: IterView<I>) -> nat {
    if s.phase == Phase::Done || s.depth >= MAX_RECURSION_DEPTH {
        0
    } else {
        ((MAX_RECURSION_DEPTH - 1 - s.depth) * 16 + level_work(s.phase, s.candidate) + 1) as nat
    }
}

/// Every step of a resolution in progress keeps the state invariant (fewer
/// than `MAX_RECURSION_DEPTH` levels, at most three servers per level, at
/// most two name-server lookups), finishes exactly when it says so, queries
/// only the current level's candidate server, and strictly decreases the
/// work left: every resolution ends after a bounded number of steps.
pub proof fn lemma_step_progresses<I>(s: IterView<I>, e: EventView<I>)
    requires
        iter_wf(s),
        expects(s, e),
    ensures
        iter_wf(iter_step(s, e).0),
        (iter_step(s, e).1 is Finish) <==> (iter_step(s, e).0.phase == Phase::Done),
        iter_step(s, e).1 is Query ==> iter_step(s, e).0.candidate < SERVERS_PER_LEVEL && iter_step(s, e).1
            == ActionView::<I>::Query(iter_step(s, e).0.servers[iter_step(s, e).0.candidate as int]),
        remaining_work(iter_step(s, e).0) < remaining_work(s),
{
}

/// Bailiwick: under the current rules every NS name taken from a referral
/// is the target of an NS record whose owner is a zone containing the
/// queried name.
pub proof fn lemma_ns_names_in_bailiwick(auths: Seq<(NameView, Option<NameView>, bool)>, qname: NameView)
    ensures
        forall|k: int|
            0 <= k < bailiwick_ns(auths, qname, true).len() ==> exists|i: int|
                0 <= i < auths.len() && auths[i].1 == Some(#[trigger] bailiwick_ns(auths, qname, true)[k])
                    && zone_of(auths[i].0, qname),
    decreases auths.len(),
{
    if auths.len() > 0 {
        let p = auths.drop_last();
        lemma_ns_names_in_bailiwick(p, qname);
        let all = bailiwick_ns(auths, qname, true);
        let prev = bailiwick_ns(p, qname, true);
        assert forall|k: int| 0 <= k < all.len() implies exists|i: int|
            0 <= i < auths.len() && auths[i].1 == Some(#[trigger] all[k]) && zone_of(auths[i].0, qname) by {
            if k < prev.len() {
                assert(all[k] == prev[k]);
                let i = choose|i: int| 0 <= i < p.len() && p[i].1 == Some(prev[k]) && zone_of(p[i].0, qname);
                assert(auths[i] == p[i]);
            } else {
                assert(auths[auths.len() - 1] == auths.last());
            }
        }
    }
}

/// Under the current rules every glue server taken from a referral is the
/// address of an A/AAAA record owned by one of the accepted NS names, on
/// port 53.
pub proof fn lemma_glue_owned_by_ns<I>(adds: Seq<(NameView, Option<I>)>, names: Seq<NameView>)
    ensures
        forall|k: int|
            0 <= k < glue_servers(adds, names, true).len() ==> (#[trigger] glue_servers(adds, names, true)[k]).1
                == DNS_PORT && exists|i: int|
                0 <= i < adds.len() && adds[i].1 == Some(glue_servers(adds, names, true)[k].0) && listed(
                    names,
                    adds[i].0,
                ),
    decreases adds.len(),
{
    if adds.len() > 0 {
        let p = adds.drop_last();
        lemma_glue_owned_by_ns(p, names);
        let all = glue_servers(adds, names, true);
        let prev = glue_servers(p, names, true);
        assert forall|k: int| 0 <= k < all.len() implies (#[trigger] all[k]).1 == DNS_PORT && exists|i: int|
            0 <= i < adds.len() && adds[i].1 == Some(all[k].0) && listed(names, adds[i].0) by {
            if k < prev.len() {
                assert(all[k] == prev[k]);
                let i = choose|i: int| 0 <= i < p.len() && p[i].1 == Some(prev[k].0) && listed(names, p[i].0);
                assert(adds[i] == p[i]);
            } else {
                assert(adds[adds.len() - 1] == adds.last());
            }
        }
    }
}

/// A name-server address lookup that finds nothing moves on. With no server
/// known yet for the next level: in strict mode the IPv4 lookup of NS name
/// `k` is followed by the IPv6 lookup of the same name; after the last
/// lookup of a name (IPv6, or IPv4 when not strict) comes the IPv4 lookup
/// of the next NS name when one of the first two remains, and only when
/// none remains does the resolution fail with SERVFAIL.
pub proof fn lemma_failed_ns_lookup_moves_on<I>(s: IterView<I>, k: usize, f: AddressFamily)
    requires
        s.phase == Phase::ResolvingNs(k, f),
        s.next_servers.len() == 0,
        k < s.ns_names.len(),
    ensures
        ({
            let (s2, a) = iter_step(s, EventView::NsAddresses(Seq::empty()));
            &&& (f == AddressFamily::V4 && s.strict) ==> a == ActionView::<I>::ResolveNs(
                s.ns_names[k as int],
                AddressFamily::V6,
            ) && s2.phase == Phase::ResolvingNs(k, AddressFamily::V6)
            &&& ((f == AddressFamily::V6 || !s.strict) && k + 1 < 2 && k + 1 < s.ns_names.len()) ==> a
                == ActionView::<I>::ResolveNs(s.ns_names[k + 1], AddressFamily::V4) && s2.phase == Phase::ResolvingNs(
                (k + 1) as usize,
                AddressFamily::V4,
            )
            &&& ((f == AddressFamily::V6 || !s.strict) && !(k + 1 < 2 && k + 1 < s.ns_names.len())) ==> a
                == ActionView::<I>::Finish(IterOutcome::ServFail) && s2.phase == Phase::Done
        }),
{
    let s1 = IterView { next_servers: s.next_servers + on_dns_port(Seq::<I>::empty()), ..s };
    assert(s1.next_servers.len() == 0);
}

/// A name-server address lookup that finds addresses leads down a level:
/// when it is the last lookup of its name (IPv6, or IPv4 when not strict),
/// no server was known for the next level and the depth limit is not
/// reached, the next level's servers are the found addresses on port 53, in
/// order, and the first of them is queried; in strict mode an IPv4 lookup
/// is instead followed by the IPv6 lookup of the same name.
pub proof fn lemma_found_ns_addresses_descend<I>(s: IterView<I>, k: usize, f: AddressFamily, ips: Seq<I>)
    requires
        s.phase == Phase::ResolvingNs(k, f),
        s.next_servers.len() == 0,
        k < s.ns_names.len(),
        ips.len() > 0,
    ensures
        ({
            let (s2, a) = iter_step(s, EventView::NsAddresses(ips));
            &&& (f == AddressFamily::V4 && s.strict) ==> a == ActionView::<I>::ResolveNs(
                s.ns_names[k as int],
                AddressFamily::V6,
            ) && s2.next_servers.len() == ips.len()
            &&& ((f == AddressFamily::V6 || !s.strict) && s.depth + 1 < 10) ==> {
                &&& a == ActionView::<I>::Query((ips[0], 53u16))
                &&& s2.depth == s.depth + 1
                &&& s2.servers.len() == ips.len()
                &&& forall|j: int| 0 <= j < ips.len() ==> #[trigger] s2.servers[j] == (ips[j], 53u16)
                &&& s2.phase == Phase::Querying
            }
            &&& ((f == AddressFamily::V6 || !s.strict) && s.depth + 1 >= 10) ==> a == ActionView::<I>::Finish(
                IterOutcome::ServFail,
            )
        }),
{
    let s1 = IterView { next_servers: s.next_servers + on_dns_port(ips), ..s };
    assert(s1.next_servers =~= on_dns_port(ips));
}

} // verus!
