//! Forwarding to upstream resolvers: which resolver is asked first, when the
//! other one is asked, how a lookup's outcome is classified, which received
//! message answers a query sent, and how the router's address is found in
//! the kernel routing table.
use vstd::prelude::*;
use crate::mydns::config::types::{ResolverMode, ResolverPriority};
use crate::names::{chars_of, is_space, split_char, split_on, labels_view, same_text};
use super::iterative::{min_ttl, smallest_ttl};
use super::names::{name_eq, DomainName, NameView};

verus! {

broadcast use vstd::string::group_string_axioms;

/// One of the two forwarding resolvers.
#[derive(Debug, Clone, Copy, PartialEq, Eq, Structural)]
pub enum Forwarder {
    Cloudflare,
    Router,
}

/// How an upstream resolution ended.
#[derive(Debug, Clone, Copy, PartialEq, Eq, Structural)]
pub enum UpstreamOutcome {
    /// Records were found; `ttl` is their smallest TTL.
    Positive(u32),
    Nodata,
    NxDomain,
    ServFail,
}

/// What a forwarded lookup returned: the TTLs of its answer records, or an
/// error with its kind.
#[derive(Debug)]
pub enum LookupResult {
    Answers(Vec<u32>),
    Failed { nx_domain: bool, no_records: bool },
}

/// The resolver asked first and the one asked after it, if any: Cloudflare
/// first unless the router is preferred and known.
pub open spec fn forwarding_order(priority: ResolverPriority, has_router: bool) -> (Forwarder, Option<Forwarder>) {
    match priority {
        ResolverPriority::CloudflareFirst => (
            Forwarder::Cloudflare,
            if has_router {
                Some(Forwarder::Router)
            } else {
                None
            },
        ),
        ResolverPriority::RouterFirst => if has_router {
            (Forwarder::Router, Some(Forwarder::Cloudflare))
        } else {
            (Forwarder::Cloudflare, None)
        },
    }
}

/// The resolvers in the order forwarding asks them.
pub fn ordered_resolvers(priority: ResolverPriority, has_router: bool) -> (r: (Forwarder, Option<Forwarder>))
    ensures
        r == forwarding_order(priority, has_router),
{
    match priority {
        ResolverPriority::CloudflareFirst => (
            Forwarder::Cloudflare,
            if has_router {
                Some(Forwarder::Router)
            } else {
                None
            },
        ),
        ResolverPriority::RouterFirst => if has_router {
            (Forwarder::Router, Some(Forwarder::Cloudflare))
        } else {
            (Forwarder::Cloudflare, None)
        },
    }
}

/// The outcome of one forwarded lookup: answers give a positive outcome
/// with their smallest TTL (none is NODATA); a failure is NXDOMAIN, NODATA or
/// SERVFAIL by its kind, NXDOMAIN first.
pub open spec fn lookup_outcome(answer_ttls: Option<Seq<u32>>, nx_domain: bool, no_records: bool) -> UpstreamOutcome {
    match answer_ttls {
        Some(t) => if t.len() == 0 {
            UpstreamOutcome::Nodata
        } else {
            UpstreamOutcome::Positive(min_ttl(t))
        },
        None => if nx_domain {
            UpstreamOutcome::NxDomain
        } else if no_records {
            UpstreamOutcome::Nodata
        } else {
            UpstreamOutcome::ServFail
        },
    }
}

impl LookupResult {
    pub open spec fn outcome_spec(&self) -> UpstreamOutcome {
        match self {
            LookupResult::Answers(t) => lookup_outcome(Some(t@), false, false),
            LookupResult::Failed { nx_domain, no_records } => lookup_outcome(None, *nx_domain, *no_records),
        }
    }

    /// Classifies the lookup.
    pub fn outcome(&self) -> (o: UpstreamOutcome)
        ensures
            o == self.outcome_spec(),
    {
        match self {
            LookupResult::Answers(t) => if t.len() == 0 {
                UpstreamOutcome::Nodata
            } else {
                UpstreamOutcome::Positive(smallest_ttl(t))
            },
            LookupResult::Failed { nx_domain, no_records } => if *nx_domain {
                UpstreamOutcome::NxDomain
            } else if *no_records {
                UpstreamOutcome::Nodata
            } else {
                UpstreamOutcome::ServFail
            },
        }
    }
}

/// After the first resolver's outcome: the resolver to ask next, or `None`
/// when the first outcome stands. A positive answer and NXDOMAIN stand;
/// NODATA and SERVFAIL are retried on the second resolver when there is one,
/// whose outcome then stands.
pub open spec fn retry_with(first: UpstreamOutcome, second: Option<Forwarder>) -> Option<Forwarder> {
    match first {
        UpstreamOutcome::Positive(_) | UpstreamOutcome::NxDomain => None,
        UpstreamOutcome::Nodata | UpstreamOutcome::ServFail => second,
    }
}

/// The resolver to ask after the first one's outcome, if any.
pub fn fallback_resolver(first: UpstreamOutcome, second: Option<Forwarder>) -> (r: Option<Forwarder>)
    ensures
        r == retry_with(first, second),
{
    match first {
        UpstreamOutcome::Positive(_) | UpstreamOutcome::NxDomain => None,
        UpstreamOutcome::Nodata | UpstreamOutcome::ServFail => second,
    }
}

/// How a resolution is carried out in each mode.
#[derive(Debug, Clone, Copy, PartialEq, Eq, Structural)]
pub enum Strategy {
    /// Iterate from the root hints.
    Iterate,
    /// Forward to this resolver first, then maybe to the other.
    Forward(Forwarder, Option<Forwarder>),
}

/// The strategy of a resolver configured with `mode` and `priority`.
pub open spec fn strategy_of(mode: ResolverMode, priority: ResolverPriority, has_router: bool) -> Strategy {
    match mode {
        ResolverMode::Recursive => Strategy::Iterate,
        ResolverMode::Forwarding => {
            let (a, b) = forwarding_order(priority, has_router);
            Strategy::Forward(a, b)
        },
    }
}

/// The strategy of a resolver configured with `mode` and `priority`.
pub fn resolution_strategy(mode: ResolverMode, priority: ResolverPriority, has_router: bool) -> (s: Strategy)
    ensures
        s == strategy_of(mode, priority, has_router),
{
    match mode {
        ResolverMode::Recursive => Strategy::Iterate,
        ResolverMode::Forwarding => {
            let (a, b) = ordered_resolvers(priority, has_router);
            Strategy::Forward(a, b)
        },
    }
}

/// The outcome counts as a successful upstream resolution in the metrics.
pub open spec fn counts_as_success(o: UpstreamOutcome) -> bool {
    !(o is ServFail)
}

/// Whether the outcome counts as a successful upstream resolution.
pub fn is_success(o: UpstreamOutcome) -> (b: bool)
    ensures
        b == counts_as_success(o),
{
    match o {
        UpstreamOutcome::ServFail => false,
        _ => true,
    }
}

/// The whitespace-separated words of `s`, as `str::split_whitespace` yields them.
pub open spec fn words(s: Seq<char>) -> Seq<Seq<char>>
    decreases s.len(),
{
    if s.len() == 0 {
        Seq::empty()
    } else {
        let prev = words(s.drop_last());
        if is_space(s.last()) {
            prev
        } else if s.len() >= 2 && !is_space(s[s.len() - 2]) {
            prev.update(prev.len() - 1, prev.last().push(s.last()))
        } else {
            prev.push(seq![s.last()])
        }
    }
}

proof fn lemma_words_nonempty_after_word(s: Seq<char>)
    requires
        s.len() >= 1,
        !is_space(s.last()),
    ensures
        words(s).len() >= 1,
    decreases s.len(),
{
    if s.len() >= 2 && !is_space(s[s.len() - 2]) {
        assert(s.drop_last().last() == s[s.len() - 2]);
        lemma_words_nonempty_after_word(s.drop_last());
    }
}

/// The whitespace-separated words of `s`.
pub fn split_words(s: &str) -> (r: Vec<String>)
    ensures
        labels_view(r@) == words(s@),
{
    let cs = chars_of(s);
    let mut out: Vec<String> = Vec::new();
    let mut cur = String::new();
    let mut in_word = false;
    let mut i: usize = 0;
    assert(cs@.take(0) =~= Seq::<char>::empty());
    while i < cs.len()
        invariant
            i <= cs.len(),
            cs@ == s@,
            in_word == (i > 0 && !is_space(cs@[i - 1])),
            in_word ==> labels_view(out@).push(cur@) == words(cs@.take(i as int)),
            !in_word ==> labels_view(out@) == words(cs@.take(i as int)) && cur@.len() == 0,
        decreases cs.len() - i,
    {
        let c = cs[i];
        let ghost pre = cs@.take(i as int);
        assert(cs@.take(i + 1).drop_last() == pre);
        assert(cs@.take(i + 1).last() == c);
        let sp = crate::names::is_space_char(c);
        if sp {
            if in_word {
                let ghost before = out@;
                out.push(cur);
                cur = String::new();
                assert(labels_view(out@) =~= labels_view(before).push(out@.last()@));
            }
            in_word = false;
        } else {
            if in_word {
                proof {
                    lemma_words_nonempty_after_word(pre);
                }
                assert(cs@.take(i + 1)[i - 1] == cs@[i - 1]);
                let ghost before_cur = cur@;
                crate::names::push_char(&mut cur, c);
                assert(labels_view(out@).push(cur@) =~= words(cs@.take(i + 1)));
            } else {
                if i > 0 {
                    assert(cs@.take(i + 1)[i - 1] == cs@[i - 1]);
                }
                crate::names::push_char(&mut cur, c);
                assert(cur@ =~= seq![c]);
                assert(labels_view(out@).push(cur@) =~= words(cs@.take(i + 1)));
            }
            in_word = true;
        }
        i = i + 1;
    }
    assert(cs@.take(cs.len() as int) == cs@);
    if in_word {
        let ghost before = out@;
        out.push(cur);
        assert(labels_view(out@) =~= labels_view(before).push(out@.last()@));
    }
    out
}

/// The value of a hexadecimal digit.
pub open spec fn hex_digit(c: char) -> Option<nat> {
    if '0' <= c && c <= '9' {
        Some(((c as u32) - ('0' as u32)) as nat)
    } else if 'a' <= c && c <= 'f' {
        Some(((c as u32) - ('a' as u32) + 10) as nat)
    } else if 'A' <= c && c <= 'F' {
        Some(((c as u32) - ('A' as u32) + 10) as nat)
    } else {
        None
    }
}

/// The number the hexadecimal digits `d` write.
pub open spec fn hex_value(d: Seq<char>) -> nat
    decreases d.len(),
{
    if d.len() == 0 {
        0
    } else {
        hex_value(d.drop_last()) * 16 + match hex_digit(d.last()) {
            Some(v) => v,
            None => 0,
        }
    }
}

/// What `u32::from_str_radix(s, 16)` gives: an optional leading `'+'`, then
/// at least one hexadecimal digit and nothing else, below 2^32.
pub open spec fn hex_u32_outcome(s: Seq<char>) -> Option<u32> {
    let d = crate::names::unsigned_digits(s);
    if d.len() == 0 || exists|i: int| 0 <= i < d.len() && (#[trigger] hex_digit(d[i])) is None {
        None
    } else if hex_value(d) > u32::MAX {
        None
    } else {
        Some(hex_value(d) as u32)
    }
}

proof fn lemma_hex_value_prefix(d: Seq<char>, k: int)
    requires
        0 <= k <= d.len(),
    ensures
        hex_value(d.take(k)) <= hex_value(d),
    decreases d.len(),
{
    if k < d.len() {
        assert(d.drop_last().take(k) == d.take(k));
        lemma_hex_value_prefix(d.drop_last(), k);
    } else {
        assert(d.take(k) == d);
    }
}

/// The value of the hexadecimal digit `c`, if it is one.
fn hex_digit_value(c: char) -> (r: Option<u32>)
    ensures
        match hex_digit(c) {
            Some(v) => r == Some(v as u32) && v < 16,
            None => r is None,
        },
{
    if '0' <= c && c <= '9' {
        Some((c as u32) - ('0' as u32))
    } else if 'a' <= c && c <= 'f' {
        Some((c as u32) - ('a' as u32) + 10)
    } else if 'A' <= c && c <= 'F' {
        Some((c as u32) - ('A' as u32) + 10)
    } else {
        None
    }
}

/// Parses `s` as `u32::from_str_radix(s, 16)` does.
pub fn parse_hex_u32(s: &str) -> (r: Option<u32>)
    ensures
        r == hex_u32_outcome(s@),
{
    let v = chars_of(s);
    let start: usize = if v.len() > 1 && v[0] == '+' { 1 } else { 0 };
    let ghost d = crate::names::unsigned_digits(s@);
    assert(d == v@.subrange(start as int, v.len() as int));
    if start == v.len() {
        return None;
    }
    let mut value: u64 = 0;
    let mut i: usize = start;
    assert(d.take(0) =~= Seq::<char>::empty());
    while i < v.len()
        invariant
            start <= i <= v.len(),
            v@ == s@,
            d == crate::names::unsigned_digits(s@),
            d == v@.subrange(start as int, v.len() as int),
            d.len() > 0,
            forall|t: int| 0 <= t < i - start ==> (#[trigger] hex_digit(d[t])) is Some,
            value == hex_value(d.take(i - start)),
            value <= u32::MAX,
        decreases v.len() - i,
    {
        assert(d[i - start] == v@[i as int]);
        match hex_digit_value(v[i]) {
            None => {
                return None;
            },
            Some(h) => {
                assert(d.take(i + 1 - start).drop_last() == d.take(i - start));
                assert(d.take(i + 1 - start).last() == v@[i as int]);
                let next = value * 16 + h as u64;
                if next > 0xffff_ffff {
                    proof {
                        lemma_hex_value_prefix(d, i + 1 - start);
                    }
                    return None;
                }
                value = next;
            },
        }
        i = i + 1;
    }
    assert(d.take(i - start) == d);
    Some(value as u32)
}

/// The default route's gateway in the text of `/proc/net/route`: the first
/// line after the header whose second field is `00000000` gives it as a
/// hexadecimal word of its third field, least significant byte first. A
/// third field that is not hexadecimal ends the search with nothing found.
pub open spec fn route_gateway(lines: Seq<Seq<char>>) -> Option<u32>
    decreases lines.len(),
{
    if lines.len() == 0 {
        None
    } else {
        let f = words(lines[0]);
        if f.len() >= 3 && f[1] == "00000000"@ {
            hex_u32_outcome(f[2])
        } else {
            route_gateway(lines.drop_first())
        }
    }
}

/// The lines of `content` after the first.
pub open spec fn route_lines(content: Seq<char>) -> Seq<Seq<char>> {
    split_char(content, '\n').drop_first()
}

/// The IPv4 octets of the default gateway listed in `content`, the text of
/// the kernel routing table, in address order.
pub fn gateway_from_route_table(content: &str) -> (r: Option<[u8; 4]>)
    ensures
        match route_gateway(route_lines(content@)) {
            Some(w) => r matches Some(o) && o@ == seq![
                (w % 256) as u8,
                ((w / 256) % 256) as u8,
                ((w / 65536) % 256) as u8,
                (w / 16777216) as u8,
            ],
            None => r is None,
        },
{
    let lines = split_on(content, '\n');
    let ghost all = labels_view(lines@);
    let mut i: usize = 1;
    proof {
        crate::names::lemma_split_char_nonempty(content@, '\n');
    }
    assert(all.skip(1) =~= route_lines(content@));
    while i < lines.len()
        invariant
            1 <= i <= lines.len(),
            all == labels_view(lines@),
            route_gateway(all.skip(i as int)) == route_gateway(route_lines(content@)),
        decreases lines.len() - i,
    {
        let ghost rest = all.skip(i as int);
        assert(rest[0] == lines@[i as int]@);
        assert(rest.drop_first() == all.skip(i + 1));
        let fields = split_words(lines[i].as_str());
        if fields.len() >= 3 && same_text(fields[1].as_str(), "00000000") {
            match parse_hex_u32(fields[2].as_str()) {
                Some(w) => {
                    let o: [u8; 4] = [(w % 256) as u8, ((w / 256) % 256) as u8, ((w / 65536) % 256) as u8, (w / 16777216) as u8];
                    assert(o@ =~= seq![
                        (w % 256) as u8,
                        ((w / 256) % 256) as u8,
                        ((w / 65536) % 256) as u8,
                        (w / 16777216) as u8,
                    ]);
                    return Some(o);
                },
                None => {
                    return None;
                },
            }
        }
        i = i + 1;
    }
    assert(all.skip(i as int).len() == 0);
    None
}


/// The record type code of `ANY` queries.
pub const ANY_TYPE: u16 = 255;

/// The header and questions of a received message, as far as matching it to
/// the query sent reads them.
#[derive(Debug)]
pub struct ReplyHeader {
    pub id: u16,
    /// The message is a response (QR set).
    pub is_response: bool,
    /// The message's opcode is that of a standard query.
    pub is_standard_query: bool,
    /// The questions the message repeats: name and record type code.
    pub questions: Vec<(DomainName, u16)>,
}

/// A received message's header and questions as a mathematical value.
pub struct HeaderView {
    pub id: u16,
    pub is_response: bool,
    pub is_standard_query: bool,
    pub questions: Seq<(NameView, u16)>,
}

impl View for ReplyHeader {
    type V = HeaderView;

    open spec fn view(&self) -> HeaderView {
        HeaderView {
            id: self.id,
            is_response: self.is_response,
            is_standard_query: self.is_standard_query,
            questions: self.questions@.map_values(|q: (DomainName, u16)| (q.0@, q.1)),
        }
    }
}

/// A question repeats the query: the same name (compared as `Name` compares
/// names) and the same type, or any type for an `ANY` query.
pub open spec fn question_matches(q: (NameView, u16), qname: NameView, qtype: u16) -> bool {
    name_eq(q.0, qname) && (q.1 == qtype || qtype == ANY_TYPE)
}

/// A received message answers the query with `id` for (`qname`, `qtype`):
/// it carries that id, is a response to a standard query, and repeats the
/// query among its questions unless it repeats none.
pub open spec fn answers_query(h: HeaderView, id: u16, qname: NameView, qtype: u16) -> bool {
    &&& h.id == id
    &&& h.is_response
    &&& h.is_standard_query
    &&& (h.questions.len() == 0 || exists|i: int|
        0 <= i < h.questions.len() && question_matches(#[trigger] h.questions[i], qname, qtype))
}

/// Whether the received message `h` answers the query with `id` for
/// (`qname`, `qtype`); other messages are ignored.
pub fn reply_matches(h: &ReplyHeader, id: u16, qname: &DomainName, qtype: u16) -> (b: bool)
    ensures
        b == answers_query(h@, id, qname@, qtype),
{
    if h.id != id || !h.is_response || !h.is_standard_query {
        return false;
    }
    if h.questions.len() == 0 {
        return true;
    }
    let mut i: usize = 0;
    while i < h.questions.len()
        invariant
            i <= h.questions.len(),
            h.id == id && h.is_response && h.is_standard_query,
            forall|k: int| 0 <= k < i ==> !question_matches(#[trigger] h@.questions[k], qname@, qtype),
        decreases h.questions.len() - i,
    {
        let (n, t) = (&h.questions[i].0, h.questions[i].1);
        assert(h@.questions[i as int] == (n@, t));
        if n.equals(qname) && (t == qtype || qtype == ANY_TYPE) {
            assert(question_matches(h@.questions[i as int], qname@, qtype));
            return true;
        }
        i = i + 1;
    }
    false
}

/// The two forwarders are never the same resolver, and without a router only
/// Cloudflare is asked.
pub proof fn lemma_forwarders_distinct(priority: ResolverPriority, has_router: bool)
    ensures
        forwarding_order(priority, has_router).1 matches Some(b) ==> b != forwarding_order(priority, has_router).0,
        !has_router ==> forwarding_order(priority, has_router) == (Forwarder::Cloudflare, None::<Forwarder>),
{
}

/// A positive answer or an NXDOMAIN from the first resolver is final; only
/// NODATA and SERVFAIL are retried, and only on the second resolver.
pub proof fn lemma_definitive_outcomes_final(first: UpstreamOutcome, second: Option<Forwarder>)
    ensures
        (first is Positive || first is NxDomain) ==> retry_with(first, second) is None,
        (first is Nodata || first is ServFail) ==> retry_with(first, second) == second,
{
}
} // verus!
