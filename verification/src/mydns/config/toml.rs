//! The settings of `config.toml` once its sections are read: required
//! credentials, timezone validation, zone normalisation and defaults.
use vstd::prelude::*;
use crate::names::{chars_of, labels_view, normalize, normalize_name, trim_spaces, trim_whitespace};
use super::types::{
    cloudflare_address, cloudflare_default, copy_addresses, localhost, localhost_ip, ConfigError, FileSettings,
    IpValue, ResolverMode, ResolverPriority, SocketValue,
};

verus! {

broadcast use vstd::string::group_string_axioms;

/// The fields of `config.toml` the settings are made from; each is `None`
/// when the file leaves it out. Network addresses are read by the caller.
#[derive(Debug)]
pub struct TomlFields {
    pub bind_host: Option<IpValue>,
    pub http_host: Option<IpValue>,
    pub cloudflare_dns: Option<SocketValue>,
    pub router_dns: Option<SocketValue>,
    pub root_hints: Option<Vec<SocketValue>>,
    pub timezone: Option<String>,
    pub dns_port: Option<u16>,
    pub http_port: Option<u16>,
    pub run_as_user: Option<String>,
    pub run_as_group: Option<String>,
    pub db_path: Option<String>,
    pub observability_path: Option<String>,
    pub admin_username: Option<String>,
    pub admin_password: Option<String>,
    pub jwt_secret: Option<String>,
    pub mode: Option<ResolverMode>,
    pub priority: Option<ResolverPriority>,
    pub authoritative: Option<Vec<String>>,
    pub allowed: Option<Vec<String>>,
    pub dashboard_domain: Option<String>,
    pub cors_domains: Option<Vec<String>>,
}

/// Names whether `<chrono_tz::Tz as FromStr>::from_str` accepts `name`: it
/// looks `name` up in the timezone database compiled into the crate.
pub uninterp spec fn known_timezone(name: Seq<char>) -> bool;

/// Calls `<chrono_tz::Tz as FromStr>::from_str` and reports whether it
/// succeeded, by [`known_timezone`]; on failure, the text of its
/// `ParseError`, which the crate's `Display` impl writes as the fixed
/// message "failed to parse timezone".
#[verifier::external_body]
fn check_timezone(name: &str) -> (r: Result<(), String>)
    ensures
        r is Ok == known_timezone(name@),
        r matches Err(why) ==> why@ == "failed to parse timezone"@,
{
    match name.parse::<chrono_tz::Tz>() {
        Ok(_) => Ok(()),
        Err(e) => Err(e.to_string()),
    }
}

/// A credential field that is set to something other than whitespace.
pub open spec fn credential(field: Option<String>) -> Option<Seq<char>> {
    match field {
        Some(s) => if trim_spaces(s@).len() > 0 {
            Some(s@)
        } else {
            None
        },
        None => None,
    }
}

/// The text of an optional field, or `default`.
pub open spec fn text_or(field: Option<String>, default: Seq<char>) -> Seq<char> {
    match field {
        Some(s) => s@,
        None => default,
    }
}

/// The non-empty members of `s`, in order.
pub open spec fn nonempty(s: Seq<Seq<char>>) -> Seq<Seq<char>>
    decreases s.len(),
{
    if s.len() == 0 {
        Seq::empty()
    } else if s.last().len() > 0 {
        nonempty(s.drop_last()).push(s.last())
    } else {
        nonempty(s.drop_last())
    }
}

/// The zone list the file gives: `authoritative`, else `allowed`, else none.
pub open spec fn listed_zones(f: TomlFields) -> Seq<Seq<char>> {
    match f.authoritative {
        Some(v) => labels_view(v@),
        None => match f.allowed {
            Some(v) => labels_view(v@),
            None => Seq::empty(),
        },
    }
}

/// The zones of `list`, each (when `trim`) trimmed, then without trailing
/// dots and lowercased; empty ones left out.
pub open spec fn zone_items(list: Seq<Seq<char>>, trim: bool) -> Seq<Seq<char>> {
    nonempty(
        list.map_values(
            |z: Seq<char>|
                normalize(
                    if trim {
                        trim_spaces(z)
                    } else {
                        z
                    },
                ),
        ),
    )
}

/// The authoritative zones: each listed zone trimmed, without trailing dots
/// and lowercased, empty ones left out; `home.arpa` when none remain.
pub open spec fn toml_zones(f: TomlFields) -> Seq<Seq<char>> {
    let z = zone_items(listed_zones(f), true);
    if z.len() > 0 {
        z
    } else {
        seq!["home.arpa"@]
    }
}

/// The settings every reading of the fields shares: the credentials as set,
/// and each other setting as set or its default.
pub open spec fn toml_common(f: TomlFields, s: FileSettings) -> bool {
    &&& s.bind_host == (match f.bind_host {
        Some(a) => a,
        None => localhost(),
    })
    &&& s.http_host == (match f.http_host {
        Some(a) => a,
        None => localhost(),
    })
    &&& s.cloudflare_dns == (match f.cloudflare_dns {
        Some(a) => a,
        None => cloudflare_default(),
    })
    &&& s.router_dns == f.router_dns
    &&& s.root_hints@ == (match f.root_hints {
        Some(v) => v@,
        None => Seq::<SocketValue>::empty(),
    })
    &&& credential(f.admin_username) == Some(s.admin_username@)
    &&& credential(f.admin_password) == Some(s.admin_password@)
    &&& s.dns_port == (match f.dns_port {
        Some(p) => p,
        None => 53u16,
    })
    &&& s.http_port == (match f.http_port {
        Some(p) => p,
        None => 8080u16,
    })
    &&& labels_view(s.cors_domains@) == (match f.cors_domains {
        Some(v) => labels_view(v@),
        None => seq!["mydns.local"@],
    })
    &&& s.dashboard_domain@ == text_or(f.dashboard_domain, "mydns.local"@)
    &&& s.db_path@ == text_or(f.db_path, "mydns.db"@)
    &&& s.jwt_secret@ == text_or(f.jwt_secret, ""@)
    &&& s.resolver_mode == (match f.mode {
        Some(m) => m,
        None => ResolverMode::Forwarding,
    })
    &&& s.resolver_priority == (match f.priority {
        Some(p) => p,
        None => ResolverPriority::CloudflareFirst,
    })
    &&& s.run_as_user@ == text_or(f.run_as_user, "nobody"@)
    &&& s.run_as_group@ == text_or(f.run_as_group, "nobody"@)
}

/// The first rule the fields break: a missing or blank admin username, then
/// password, then a timezone the database does not know.
pub open spec fn toml_fault(f: TomlFields) -> Option<Seq<char>> {
    if credential(f.admin_username) is None {
        Some("[auth].admin_username"@)
    } else if credential(f.admin_password) is None {
        Some("[auth].admin_password"@)
    } else if !known_timezone(text_or(f.timezone, "UTC"@)) {
        Some(text_or(f.timezone, "UTC"@))
    } else {
        None
    }
}

/// The zones of `list`, each (when `trim`) trimmed, then without trailing
/// dots and lowercased; empty ones left out.
fn normalized_zone_list(list: &Vec<String>, trim: bool) -> (r: Vec<String>)
    ensures
        labels_view(r@) == zone_items(labels_view(list@), trim),
{
    let ghost mapped = labels_view(list@).map_values(
        |z: Seq<char>|
            normalize(
                if trim {
                    trim_spaces(z)
                } else {
                    z
                },
            ),
    );
    let mut out: Vec<String> = Vec::new();
    let mut i: usize = 0;
    assert(mapped.take(0) =~= Seq::<Seq<char>>::empty());
    assert(labels_view(out@) =~= Seq::<Seq<char>>::empty());
    while i < list.len()
        invariant
            i <= list.len(),
            mapped == labels_view(list@).map_values(
                |z: Seq<char>|
                    normalize(
                        if trim {
                            trim_spaces(z)
                        } else {
                            z
                        },
                    ),
            ),
            labels_view(out@) == nonempty(mapped.take(i as int)),
        decreases list.len() - i,
    {
        let z = if trim {
            let t = trim_whitespace(list[i].as_str());
            normalize_name(t.as_str())
        } else {
            normalize_name(list[i].as_str())
        };
        assert(mapped.take(i + 1).drop_last() == mapped.take(i as int));
        assert(mapped.take(i + 1).last() == z@);
        if chars_of(z.as_str()).len() > 0 {
            let ghost before = out@;
            out.push(z);
            assert(labels_view(out@) =~= labels_view(before).push(out@.last()@));
        }
        i = i + 1;
    }
    assert(mapped.take(list.len() as int) == mapped);
    out
}

/// The zones the fields list (`authoritative`, else `allowed`), each (when
/// `trim`) trimmed, then without trailing dots and lowercased; empty ones
/// left out.
pub(crate) fn listed_zone_list(f: &TomlFields, trim: bool) -> (r: Vec<String>)
    ensures
        labels_view(r@) == zone_items(listed_zones(*f), trim),
{
    match &f.authoritative {
        Some(v) => normalized_zone_list(v, trim),
        None => match &f.allowed {
            Some(v) => normalized_zone_list(v, trim),
            None => {
                let empty: Vec<String> = Vec::new();
                let z = normalized_zone_list(&empty, trim);
                assert(labels_view(empty@) =~= Seq::<Seq<char>>::empty());
                z
            },
        },
    }
}

/// A copy of an optional text field, or `default`.
fn text_field_or(field: &Option<String>, default: &str) -> (r: String)
    ensures
        r@ == text_or(*field, default@),
{
    match field {
        Some(s) => s.clone(),
        None => default.to_owned(),
    }
}

/// A set credential field that is not blank.
pub(crate) fn credential_field(field: &Option<String>) -> (r: Option<String>)
    ensures
        match r {
            Some(s) => credential(*field) == Some(s@),
            None => credential(*field) is None,
        },
{
    match field {
        Some(s) => {
            let t = trim_whitespace(s.as_str());
            if chars_of(t.as_str()).len() > 0 {
                Some(s.clone())
            } else {
                None
            }
        },
        None => None,
    }
}

/// The settings of `config.toml`: admin credentials must be set and not
/// blank, the timezone (UTC when unset) must be known; everything else takes
/// its default when left out.
pub fn toml_settings(f: &TomlFields) -> (r: Result<FileSettings, ConfigError>)
    ensures
        match r {
            Ok(s) => {
                &&& toml_fault(*f) is None
                &&& toml_common(*f, s)
                &&& s.timezone@ == text_or(f.timezone, "UTC"@)
                &&& s.observability_db_path@ == text_or(f.observability_path, "observability.db"@)
                &&& labels_view(s.allowed_zones@) == toml_zones(*f)
            },
            Err(e) => match toml_fault(*f) {
                Some(k) => if credential(f.admin_username) is None || credential(f.admin_password) is None {
                    e matches ConfigError::MissingTomlField(x) && x@ == k
                } else {
                    e matches ConfigError::InvalidTimezone(x, why) && x@ == k && why@
                        == "failed to parse timezone"@
                },
                None => false,
            },
        },
{
    let admin_username = match credential_field(&f.admin_username) {
        Some(s) => s,
        None => {
            return Err(ConfigError::MissingTomlField("[auth].admin_username".to_owned()));
        },
    };
    let admin_password = match credential_field(&f.admin_password) {
        Some(s) => s,
        None => {
            return Err(ConfigError::MissingTomlField("[auth].admin_password".to_owned()));
        },
    };
    let timezone = text_field_or(&f.timezone, "UTC");
    if let Err(why) = check_timezone(timezone.as_str()) {
        return Err(ConfigError::InvalidTimezone(timezone, why));
    }
    let mut allowed_zones = listed_zone_list(f, true);
    if allowed_zones.len() == 0 {
        allowed_zones.push("home.arpa".to_owned());
        assert(labels_view(allowed_zones@) =~= seq!["home.arpa"@]);
    }
    let observability = text_field_or(&f.observability_path, "observability.db");
    Ok(settings_of(f, admin_username, admin_password, timezone, observability, allowed_zones))
}

/// The settings of the fields with the given credentials, timezone,
/// observability database path and zones; every other setting as set or its
/// default.
pub(crate) fn settings_of(
    f: &TomlFields,
    admin_username: String,
    admin_password: String,
    timezone: String,
    observability_db_path: String,
    allowed_zones: Vec<String>,
) -> (s: FileSettings)
    requires
        credential(f.admin_username) == Some(admin_username@),
        credential(f.admin_password) == Some(admin_password@),
    ensures
        toml_common(*f, s),
        s.timezone == timezone,
        s.observability_db_path == observability_db_path,
        s.allowed_zones == allowed_zones,
{
    let cors_domains = match &f.cors_domains {
        Some(v) => v.clone(),
        None => {
            let mut d: Vec<String> = Vec::new();
            d.push("mydns.local".to_owned());
            assert(labels_view(d@) =~= seq!["mydns.local"@]);
            d
        },
    };
    let root_hints = match &f.root_hints {
        Some(v) => copy_addresses(v),
        None => Vec::new(),
    };
    FileSettings {
        bind_host: match f.bind_host {
            Some(a) => a,
            None => localhost_ip(),
        },
        http_host: match f.http_host {
            Some(a) => a,
            None => localhost_ip(),
        },
        cloudflare_dns: match f.cloudflare_dns {
            Some(a) => a,
            None => cloudflare_address(),
        },
        router_dns: f.router_dns,
        root_hints,
        dns_port: match f.dns_port {
            Some(p) => p,
            None => 53,
        },
        http_port: match f.http_port {
            Some(p) => p,
            None => 8080,
        },
        cors_domains,
        dashboard_domain: text_field_or(&f.dashboard_domain, "mydns.local"),
        db_path: text_field_or(&f.db_path, "mydns.db"),
        observability_db_path,
        timezone,
        jwt_secret: text_field_or(&f.jwt_secret, ""),
        admin_username,
        admin_password,
        resolver_mode: match f.mode {
            Some(m) => m,
            None => ResolverMode::Forwarding,
        },
        resolver_priority: match f.priority {
            Some(p) => p,
            None => ResolverPriority::CloudflareFirst,
        },
        run_as_user: text_field_or(&f.run_as_user, "nobody"),
        run_as_group: text_field_or(&f.run_as_group, "nobody"),
        allowed_zones,
    }
}

proof fn lemma_nonempty_keeps(s: Seq<Seq<char>>, i: int)
    requires
        0 <= i < s.len(),
        s[i].len() > 0,
    ensures
        nonempty(s).contains(s[i]),
    decreases s.len(),
{
    if i == s.len() - 1 {
        assert(nonempty(s)[nonempty(s).len() - 1] == s[i]);
    } else {
        lemma_nonempty_keeps(s.drop_last(), i);
        let p = nonempty(s.drop_last());
        let j = choose|j: int| 0 <= j < p.len() && p[j] == s[i];
        if s.last().len() > 0 {
            assert(nonempty(s)[j] == s[i]);
        }
    }
}

/// The zones of `config.toml` come from `authoritative` when it is set, and
/// from `allowed` otherwise: every zone listed there that is not blank is
/// among the settings' zones, trimmed, without trailing dots and lowercased.
pub proof fn lemma_listed_zones_are_served(f: TomlFields, i: int)
    ensures
        (match f.authoritative {
            Some(v) => 0 <= i < v@.len() && normalize(trim_spaces(v@[i]@)).len() > 0,
            None => false,
        }) ==> toml_zones(f).contains(normalize(trim_spaces(f.authoritative->0@[i]@))),
        (f.authoritative is None && match f.allowed {
            Some(v) => 0 <= i < v@.len() && normalize(trim_spaces(v@[i]@)).len() > 0,
            None => false,
        }) ==> toml_zones(f).contains(normalize(trim_spaces(f.allowed->0@[i]@))),
{
    let l = listed_zones(f);
    if 0 <= i < l.len() && normalize(trim_spaces(l[i])).len() > 0 {
        lemma_zone_items_keep(l, true, i);
    }
}

pub(crate) proof fn lemma_zone_items_keep(l: Seq<Seq<char>>, trim: bool, i: int)
    requires
        0 <= i < l.len(),
        normalize(if trim { trim_spaces(l[i]) } else { l[i] }).len() > 0,
    ensures
        zone_items(l, trim).contains(normalize(if trim { trim_spaces(l[i]) } else { l[i] })),
{
    let m = l.map_values(
        |z: Seq<char>|
            normalize(
                if trim {
                    trim_spaces(z)
                } else {
                    z
                },
            ),
    );
    assert(m[i] == normalize(if trim { trim_spaces(l[i]) } else { l[i] }));
    lemma_nonempty_keeps(m, i);
}

proof fn lemma_nonempty_from(s: Seq<Seq<char>>)
    ensures
        forall|k: int|
            0 <= k < nonempty(s).len() ==> exists|i: int|
                0 <= i < s.len() && s[i].len() > 0 && s[i] == #[trigger] nonempty(s)[k],
        nonempty(s).len() == 0 ==> forall|i: int| 0 <= i < s.len() ==> (#[trigger] s[i]).len() == 0,
    decreases s.len(),
{
    if s.len() > 0 {
        let p = s.drop_last();
        lemma_nonempty_from(p);
        let n = nonempty(s);
        let np = nonempty(p);
        assert forall|k: int| 0 <= k < n.len() implies exists|i: int|
            0 <= i < s.len() && s[i].len() > 0 && s[i] == #[trigger] n[k] by {
            if k < np.len() {
                assert(n[k] == np[k]);
                let i = choose|i: int| 0 <= i < p.len() && p[i].len() > 0 && p[i] == np[k];
                assert(s[i] == p[i]);
            } else {
                assert(s[s.len() - 1] == n[k]);
            }
        }
        if n.len() == 0 {
            assert forall|i: int| 0 <= i < s.len() implies (#[trigger] s[i]).len() == 0 by {
                if i < p.len() {
                    assert(s[i] == p[i]);
                }
            }
        }
    }
}

/// The zone list `config.toml` gives: `authoritative` when it is set, else
/// `allowed`, else none.
pub open spec fn given_zones(f: TomlFields) -> Seq<Seq<char>> {
    match f.authoritative {
        Some(v) => labels_view(v@),
        None => match f.allowed {
            Some(v) => labels_view(v@),
            None => Seq::<Seq<char>>::empty(),
        },
    }
}

/// Conversely, as soon as one zone listed under `authoritative` (or, when
/// it is absent, under `allowed`) is not blank, every zone of the settings
/// is such a listed zone, trimmed, without trailing dots and lowercased;
/// when every listed zone is blank (or none is listed) the zones are
/// `home.arpa` alone.
pub proof fn lemma_served_zones_are_listed(f: TomlFields)
    ensures
        (exists|i: int|
            0 <= i < given_zones(f).len() && normalize(trim_spaces(#[trigger] given_zones(f)[i])).len() > 0)
            ==> forall|k: int|
            0 <= k < toml_zones(f).len() ==> exists|i: int|
                0 <= i < given_zones(f).len() && normalize(trim_spaces(given_zones(f)[i])).len() > 0
                    && #[trigger] toml_zones(f)[k] == normalize(trim_spaces(given_zones(f)[i])),
        (forall|i: int|
            0 <= i < given_zones(f).len() ==> normalize(trim_spaces(#[trigger] given_zones(f)[i])).len() == 0)
            ==> toml_zones(f) == seq!["home.arpa"@],
{
    let l = given_zones(f);
    assert(l == listed_zones(f));
    let trim = true;
    let m = l.map_values(
        |z: Seq<char>|
            normalize(
                if trim {
                    trim_spaces(z)
                } else {
                    z
                },
            ),
    );
    lemma_nonempty_from(m);
    assert(zone_items(l, true) == nonempty(m));
    let z = nonempty(m);
    if z.len() > 0 {
        assert(toml_zones(f) == z);
        let i0 = choose|i: int| 0 <= i < m.len() && m[i].len() > 0 && m[i] == z[0];
        assert(m[i0] == normalize(trim_spaces(l[i0])));
        assert forall|k: int| 0 <= k < toml_zones(f).len() implies exists|i: int|
            0 <= i < l.len() && normalize(trim_spaces(l[i])).len() > 0 && #[trigger] toml_zones(f)[k] == normalize(
                trim_spaces(l[i]),
            ) by {
            let i = choose|i: int| 0 <= i < m.len() && m[i].len() > 0 && m[i] == z[k];
            assert(m[i] == normalize(trim_spaces(l[i])));
        }
    } else {
        assert(toml_zones(f) == seq!["home.arpa"@]);
        assert forall|i: int| 0 <= i < l.len() implies normalize(trim_spaces(#[trigger] l[i])).len() == 0 by {
            assert(m[i] == normalize(trim_spaces(l[i])));
            assert(m[i].len() == 0);
        }
    }
}

} // verus!
