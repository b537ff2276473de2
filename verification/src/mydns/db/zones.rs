//! Configured authoritative zones.
use vstd::prelude::*;
use crate::names::{chars_of, normalize, normalize_name, push_str, strip_trailing_dots, trim_trailing_dots};

verus! {

/// A zone entry as stored in SQLite.
#[derive(Debug)]
pub struct Zone {
    pub id: i64,
    pub name: String,
    pub created_at: String,
}


broadcast use vstd::string::group_string_axioms;

/// The name a configured zone is stored under: `"."` for the root zone,
/// otherwise the name without trailing dots and lowercased; `None` (the zone
/// is skipped) when nothing is left.
pub open spec fn seed_name(zone: Seq<char>) -> Option<Seq<char>> {
    if zone == "."@ {
        Some("."@)
    } else if normalize(zone).len() == 0 {
        None
    } else {
        Some(normalize(zone))
    }
}

/// The name a configured zone is stored under, if any.
pub fn seed_zone_name(zone: &str) -> (r: Option<String>)
    ensures
        match r {
            Some(n) => seed_name(zone@) == Some(n@),
            None => seed_name(zone@) is None,
        },
{
    let zc = chars_of(zone);
    proof {
        reveal_strlit(".");
    }
    if zc.len() == 1 && zc[0] == '.' {
        assert(zone@ =~= "."@);
        return Some(".".to_owned());
    }
    assert(zone@ != "."@);
    let n = normalize_name(zone);
    if chars_of(n.as_str()).len() == 0 {
        None
    } else {
        Some(n)
    }
}

/// The apex SOA value of a zone whose apex is `apex`.
pub open spec fn apex_soa_value(apex: Seq<char>) -> Seq<char> {
    "ns1."@ + apex + ". hostmaster."@ + apex + ". 1 3600 600 86400 300"@
}

/// The apex NS value of a zone whose apex is `apex`.
pub open spec fn apex_ns_value(apex: Seq<char>) -> Seq<char> {
    "ns1."@ + apex + "."@
}

/// The mandatory apex records of `zone`: its apex (the name without trailing
/// dots), the SOA value naming `ns1.<apex>.` and `hostmaster.<apex>.` with
/// serial 1, refresh 3600, retry 600, expire 86400 and minimum 300, and the
/// NS value `ns1.<apex>.`.
pub fn apex_records(zone: &str) -> (r: (String, String, String))
    ensures
        r.0@ == strip_trailing_dots(zone@),
        r.1@ == apex_soa_value(strip_trailing_dots(zone@)),
        r.2@ == apex_ns_value(strip_trailing_dots(zone@)),
{
    let apex = trim_trailing_dots(zone);
    let mut soa = String::new();
    push_str(&mut soa, "ns1.");
    push_str(&mut soa, apex.as_str());
    push_str(&mut soa, ". hostmaster.");
    push_str(&mut soa, apex.as_str());
    push_str(&mut soa, ". 1 3600 600 86400 300");
    let mut ns = String::new();
    push_str(&mut ns, "ns1.");
    push_str(&mut ns, apex.as_str());
    push_str(&mut ns, ".");
    assert(soa@ =~= apex_soa_value(apex@));
    assert(ns@ =~= apex_ns_value(apex@));
    (apex, soa, ns)
}
} // verus!
