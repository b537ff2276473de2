//! How a stored record (owner name, type, textual value, TTL, MX priority)
//! becomes the parts of a DNS resource record. Addresses stay textual: the
//! caller parses them into IP addresses.
use vstd::prelude::*;
use crate::names::{
    chars_of, i32_outcome, labels_view, parse_i32, parse_u32, push_char, u32_outcome,
};
use super::names::{DomainName, NameView};
use super::upstream::{split_words, words};

verus! {

broadcast use vstd::string::group_string_axioms;

/// The record types the server can build.
#[derive(Debug, Clone, Copy, PartialEq, Eq, Structural)]
pub enum RecordKind {
    A,
    AAAA,
    CNAME,
    MX,
    NS,
    PTR,
    TXT,
    SOA,
    /// Any other type; no record of it is built.
    Other,
}

/// The data of a record.
#[derive(Debug)]
pub enum RecordData {
    /// An IPv4 address, as written.
    A(String),
    /// An IPv6 address, as written.
    AAAA(String),
    CNAME(DomainName),
    MX(u16, DomainName),
    NS(DomainName),
    PTR(DomainName),
    TXT(String),
    SOA { mname: DomainName, rname: DomainName, serial: u32, refresh: i32, retry: i32, expire: i32, minimum: u32 },
}

/// A resource record: owner, TTL and data.
#[derive(Debug)]
pub struct RecordParts {
    pub owner: DomainName,
    pub ttl: u32,
    pub data: RecordData,
}

/// Names what `<hickory_proto::rr::Name as FromStr>::from_str` makes of
/// `text` (`Name::from_str_relaxed`: IDNA and escape handling, label and name
/// length limits): the labels and FQDN flag of the name, or `None` when it
/// fails.
pub uninterp spec fn parsed_name(text: Seq<char>) -> Option<NameView>;

/// Calls `<hickory_proto::rr::Name as FromStr>::from_str` on `text` and
/// returns the name's labels and FQDN flag; the result is named by
/// [`parsed_name`].
#[verifier::external_body]
pub(crate) fn parse_name(text: &str) -> (r: Option<DomainName>)
    ensures
        match r {
            Some(n) => parsed_name(text@) == Some(n@),
            None => parsed_name(text@) is None,
        },
{
    match text.parse::<hickory_proto::rr::Name>() {
        Ok(n) => Some(DomainName { labels: n.iter().map(|l| l.to_vec()).collect(), fqdn: n.is_fqdn() }),
        Err(_) => None,
    }
}

/// `s` as a fully qualified name: with a trailing dot added when it has none.
pub open spec fn fqdn_text(s: Seq<char>) -> Seq<char> {
    if s.len() > 0 && s.last() == '.' {
        s
    } else {
        s.push('.')
    }
}

/// The name `s` denotes as a fully qualified name.
pub open spec fn fqdn_name(s: Seq<char>) -> Option<NameView> {
    parsed_name(fqdn_text(s))
}

/// The data of a record as a mathematical value.
pub enum DataView {
    A(Seq<char>),
    AAAA(Seq<char>),
    CNAME(NameView),
    MX(u16, NameView),
    NS(NameView),
    PTR(NameView),
    TXT(Seq<char>),
    SOA(NameView, NameView, u32, i32, i32, i32, u32),
}

impl View for RecordData {
    type V = DataView;

    open spec fn view(&self) -> DataView {
        match self {
            RecordData::A(s) => DataView::A(s@),
            RecordData::AAAA(s) => DataView::AAAA(s@),
            RecordData::CNAME(n) => DataView::CNAME(n@),
            RecordData::MX(p, n) => DataView::MX(*p, n@),
            RecordData::NS(n) => DataView::NS(n@),
            RecordData::PTR(n) => DataView::PTR(n@),
            RecordData::TXT(s) => DataView::TXT(s@),
            RecordData::SOA { mname, rname, serial, refresh, retry, expire, minimum } => DataView::SOA(
                mname@,
                rname@,
                *serial,
                *refresh,
                *retry,
                *expire,
                *minimum,
            ),
        }
    }
}

/// The SOA data written as the seven whitespace-separated fields
/// `mname rname serial refresh retry expire minimum`.
pub open spec fn soa_data(value: Seq<char>) -> Option<DataView> {
    let f = words(value);
    if f.len() != 7 {
        None
    } else {
        match (
            fqdn_name(f[0]),
            fqdn_name(f[1]),
            u32_outcome(f[2]),
            i32_outcome(f[3]),
            i32_outcome(f[4]),
            i32_outcome(f[5]),
            u32_outcome(f[6]),
        ) {
            (Some(m), Some(r), Some(serial), Some(refresh), Some(retry), Some(expire), Some(minimum)) => Some(
                DataView::SOA(m, r, serial, refresh, retry, expire, minimum),
            ),
            _ => None,
        }
    }
}

/// The data of a record of `kind` whose value is written `value`; `None`
/// when the value does not fit the type or the type is not built. An MX
/// record without priority gets 10; the priority is cut to 16 bits.
pub open spec fn record_data(kind: RecordKind, value: Seq<char>, priority: Option<i64>) -> Option<DataView> {
    match kind {
        RecordKind::A => Some(DataView::A(value)),
        RecordKind::AAAA => Some(DataView::AAAA(value)),
        RecordKind::CNAME => match fqdn_name(value) {
            Some(n) => Some(DataView::CNAME(n)),
            None => None,
        },
        RecordKind::MX => match fqdn_name(value) {
            Some(n) => Some(
                DataView::MX(
                    match priority {
                        Some(p) => p as u16,
                        None => 10u16,
                    },
                    n,
                ),
            ),
            None => None,
        },
        RecordKind::NS => match fqdn_name(value) {
            Some(n) => Some(DataView::NS(n)),
            None => None,
        },
        RecordKind::PTR => match fqdn_name(value) {
            Some(n) => Some(DataView::PTR(n)),
            None => None,
        },
        RecordKind::TXT => Some(DataView::TXT(value)),
        RecordKind::SOA => soa_data(value),
        RecordKind::Other => None,
    }
}

/// `s` with a trailing dot added when it has none.
pub fn to_fqdn(s: &str) -> (r: String)
    ensures
        r@ == fqdn_text(s@),
{
    let cs = chars_of(s);
    let mut r = s.to_owned();
    if cs.len() > 0 && cs[cs.len() - 1] == '.' {
        r
    } else {
        push_char(&mut r, '.');
        r
    }
}

/// The name `s` denotes as a fully qualified name.
pub fn fqdn_of(s: &str) -> (r: Option<DomainName>)
    ensures
        match r {
            Some(n) => fqdn_name(s@) == Some(n@),
            None => fqdn_name(s@) is None,
        },
{
    let t = to_fqdn(s);
    parse_name(t.as_str())
}

/// The SOA data written in `value`.
fn soa_of(value: &str) -> (r: Option<RecordData>)
    ensures
        match r {
            Some(d) => soa_data(value@) == Some(d@),
            None => soa_data(value@) is None,
        },
{
    let f = split_words(value);
    if f.len() != 7 {
        return None;
    }
    assert(labels_view(f@)[0] == f@[0]@);
    assert(labels_view(f@)[1] == f@[1]@);
    assert(labels_view(f@)[2] == f@[2]@);
    assert(labels_view(f@)[3] == f@[3]@);
    assert(labels_view(f@)[4] == f@[4]@);
    assert(labels_view(f@)[5] == f@[5]@);
    assert(labels_view(f@)[6] == f@[6]@);
    let mname = fqdn_of(f[0].as_str());
    let rname = fqdn_of(f[1].as_str());
    let serial = parse_u32(f[2].as_str());
    let refresh = parse_i32(f[3].as_str());
    let retry = parse_i32(f[4].as_str());
    let expire = parse_i32(f[5].as_str());
    let minimum = parse_u32(f[6].as_str());
    match (mname, rname, serial, refresh, retry, expire, minimum) {
        (Some(m), Some(r), Some(serial), Some(refresh), Some(retry), Some(expire), Some(minimum)) => Some(
            RecordData::SOA { mname: m, rname: r, serial, refresh, retry, expire, minimum },
        ),
        _ => None,
    }
}

/// The resource record for a stored record: the owner as a fully qualified
/// name, and the data of its type; `None` when the owner or value does not
/// parse, or the type is not one the server builds.
pub fn build_record(name: &str, kind: RecordKind, value: &str, ttl: u32, priority: Option<i64>) -> (r: Option<
    RecordParts,
>)
    ensures
        match (fqdn_name(name@), record_data(kind, value@, priority)) {
            (Some(o), Some(d)) => r matches Some(p) && p.owner@ == o && p.ttl == ttl && p.data@ == d,
            _ => r is None,
        },
{
    let owner = match fqdn_of(name) {
        Some(o) => o,
        None => {
            return None;
        },
    };
    let data = match kind {
        RecordKind::A => RecordData::A(value.to_owned()),
        RecordKind::AAAA => RecordData::AAAA(value.to_owned()),
        RecordKind::CNAME => match fqdn_of(value) {
            Some(n) => RecordData::CNAME(n),
            None => {
                return None;
            },
        },
        RecordKind::MX => match fqdn_of(value) {
            Some(n) => {
                let pref: u16 = match priority {
                    Some(p) => p as u16,
                    None => 10,
                };
                RecordData::MX(pref, n)
            },
            None => {
                return None;
            },
        },
        RecordKind::NS => match fqdn_of(value) {
            Some(n) => RecordData::NS(n),
            None => {
                return None;
            },
        },
        RecordKind::PTR => match fqdn_of(value) {
            Some(n) => RecordData::PTR(n),
            None => {
                return None;
            },
        },
        RecordKind::TXT => RecordData::TXT(value.to_owned()),
        RecordKind::SOA => match soa_of(value) {
            Some(d) => d,
            None => {
                return None;
            },
        },
        RecordKind::Other => {
            return None;
        },
    };
    Some(RecordParts { owner, ttl, data })
}

/// The kind a stored type string names, exactly as the record index stores
/// it (`"A"`, `"AAAA"`, ...); other strings name no buildable type.
pub open spec fn kind_of_text(t: Seq<char>) -> RecordKind {
    if t == "A"@ {
        RecordKind::A
    } else if t == "AAAA"@ {
        RecordKind::AAAA
    } else if t == "CNAME"@ {
        RecordKind::CNAME
    } else if t == "MX"@ {
        RecordKind::MX
    } else if t == "NS"@ {
        RecordKind::NS
    } else if t == "PTR"@ {
        RecordKind::PTR
    } else if t == "TXT"@ {
        RecordKind::TXT
    } else if t == "SOA"@ {
        RecordKind::SOA
    } else {
        RecordKind::Other
    }
}

/// The kind a stored type string names.
pub fn kind_from_text(t: &str) -> (k: RecordKind)
    ensures
        k == kind_of_text(t@),
{
    if crate::names::same_text(t, "A") {
        RecordKind::A
    } else if crate::names::same_text(t, "AAAA") {
        RecordKind::AAAA
    } else if crate::names::same_text(t, "CNAME") {
        RecordKind::CNAME
    } else if crate::names::same_text(t, "MX") {
        RecordKind::MX
    } else if crate::names::same_text(t, "NS") {
        RecordKind::NS
    } else if crate::names::same_text(t, "PTR") {
        RecordKind::PTR
    } else if crate::names::same_text(t, "TXT") {
        RecordKind::TXT
    } else if crate::names::same_text(t, "SOA") {
        RecordKind::SOA
    } else {
        RecordKind::Other
    }
}


/// A name with or without its trailing dot gives the same owner and targets:
/// making a name fully qualified twice is making it so once.
pub proof fn lemma_fqdn_idempotent(s: Seq<char>)
    ensures
        fqdn_text(fqdn_text(s)) == fqdn_text(s),
        fqdn_name(fqdn_text(s)) == fqdn_name(s),
{
}
/// The text a record's data carries as written: the value of an A, AAAA or
/// TXT record.
pub open spec fn carried_text(d: DataView) -> Option<Seq<char>> {
    match d {
        DataView::A(t) => Some(t),
        DataView::AAAA(t) => Some(t),
        DataView::TXT(t) => Some(t),
        _ => None,
    }
}

/// A, AAAA and TXT values are carried over as written: the data built from
/// any value `v` of such a record always exists, is of the record's own
/// kind, and carries exactly `v`, whatever the priority; so different
/// values give different data.
pub proof fn lemma_text_values_carried(kind: RecordKind, v: Seq<char>, w: Seq<char>, priority: Option<i64>)
    requires
        kind == RecordKind::A || kind == RecordKind::AAAA || kind == RecordKind::TXT,
    ensures
        record_data(kind, v, priority) is Some,
        carried_text(record_data(kind, v, priority)->0) == Some(v),
        kind == RecordKind::A ==> record_data(kind, v, priority)->0 is A,
        kind == RecordKind::AAAA ==> record_data(kind, v, priority)->0 is AAAA,
        kind == RecordKind::TXT ==> record_data(kind, v, priority)->0 is TXT,
        v != w ==> record_data(kind, v, priority) != record_data(kind, w, priority),
{
}
/// The target a record's data names: that of a CNAME, NS, PTR or MX record.
pub open spec fn named_target(d: DataView) -> Option<NameView> {
    match d {
        DataView::CNAME(n) => Some(n),
        DataView::NS(n) => Some(n),
        DataView::PTR(n) => Some(n),
        DataView::MX(_, n) => Some(n),
        _ => None,
    }
}

/// CNAME, NS, PTR and MX values name a target: the data is built exactly
/// when the value parses as a name, is of the record's own kind, and names
/// that parsed name, fully qualified; an MX record without a priority has
/// preference 10.
pub proof fn lemma_name_values_target(kind: RecordKind, v: Seq<char>, priority: Option<i64>)
    requires
        kind == RecordKind::CNAME || kind == RecordKind::NS || kind == RecordKind::PTR || kind == RecordKind::MX,
    ensures
        record_data(kind, v, priority) is Some <==> fqdn_name(v) is Some,
        record_data(kind, v, priority) is Some ==> named_target(record_data(kind, v, priority)->0) == fqdn_name(v),
        kind == RecordKind::CNAME && fqdn_name(v) is Some ==> record_data(kind, v, priority)->0 is CNAME,
        kind == RecordKind::NS && fqdn_name(v) is Some ==> record_data(kind, v, priority)->0 is NS,
        kind == RecordKind::PTR && fqdn_name(v) is Some ==> record_data(kind, v, priority)->0 is PTR,
        kind == RecordKind::MX && fqdn_name(v) is Some && priority is None ==> record_data(kind, v, priority)
            == Some(DataView::MX(10, fqdn_name(v)->0)),
{
}
} // verus!
