//! The legacy `config.ini` format: `key=value` lines, `#`/`;` comments and
//! `[section]` headers, which are ignored.
use vstd::prelude::*;
use crate::names::{
    chars_of, find_char, first_index_of, labels_view, lowercase, same_text, split_char, split_on,
    string_from_chars, to_lowercase, trim_char, trim_matches_char, trim_spaces, trim_whitespace,
};
use crate::names::{normalize, normalize_name, parse_u16, u16_outcome};
use super::types::{
    cloudflare_address, cloudflare_default, localhost, localhost_ip, mode_outcome, priority_outcome, ConfigError,
    FileSettings, IniFault, IpValue, ResolverMode, ResolverPriority, SocketValue,
};

verus! {

broadcast use vstd::string::group_string_axioms;

/// The characters of a list of key/value pairs.
pub open spec fn pairs_view(v: Seq<(String, String)>) -> Seq<(Seq<char>, Seq<char>)> {
    v.map_values(|p: (String, String)| (p.0@, p.1@))
}

/// The value of the last pair whose key is `key`: a later line overrides an
/// earlier one.
pub open spec fn last_value(pairs: Seq<(Seq<char>, Seq<char>)>, key: Seq<char>) -> Option<Seq<char>>
    decreases pairs.len(),
{
    if pairs.len() == 0 {
        None
    } else if pairs.last().0 == key {
        Some(pairs.last().1)
    } else {
        last_value(pairs.drop_last(), key)
    }
}

/// The keys set by `pairs`.
pub open spec fn ini_keys(pairs: Seq<(Seq<char>, Seq<char>)>) -> Set<Seq<char>> {
    Set::new(|x: Seq<char>| exists|k: int| 0 <= k < pairs.len() && #[trigger] pairs[k].0 == x)
}

/// What one line means: `None` for a blank line, a comment or a section
/// header; otherwise the pair it sets (key trimmed and lowercased, value
/// trimmed and stripped of surrounding double quotes) or its fault.
pub open spec fn ini_line(raw: Seq<char>) -> Option<Result<(Seq<char>, Seq<char>), IniFault>> {
    let t = trim_spaces(raw);
    if t.len() == 0 || t[0] == '#' || t[0] == ';' || t[0] == '[' {
        None
    } else {
        match first_index_of(t, '=') {
            None => Some(Err(IniFault::MissingEquals)),
            Some(p) => {
                let key = lowercase(trim_spaces(t.take(p)));
                if key.len() == 0 {
                    Some(Err(IniFault::EmptyKey))
                } else {
                    Some(Ok((key, trim_char(trim_spaces(t.skip(p + 1)), '"'))))
                }
            },
        }
    }
}

/// The pairs set by `lines` in order, or the number (from 1) and fault of
/// the first malformed line.
pub open spec fn ini_pairs(lines: Seq<Seq<char>>) -> Result<Seq<(Seq<char>, Seq<char>)>, (nat, IniFault)>
    decreases lines.len(),
{
    if lines.len() == 0 {
        Ok(Seq::empty())
    } else {
        match ini_pairs(lines.drop_last()) {
            Err(e) => Err(e),
            Ok(p) => match ini_line(lines.last()) {
                None => Ok(p),
                Some(Ok(kv)) => Ok(p.push(kv)),
                Some(Err(f)) => Err((lines.len(), f)),
            },
        }
    }
}

/// The outcome of reading `contents` as an INI file. Lines are the pieces
/// between `'\n'`; a carriage return before a newline is whitespace and is
/// trimmed with the rest, so this numbers and reads lines as `str::lines` does.
pub open spec fn ini_outcome(contents: Seq<char>) -> Result<Seq<(Seq<char>, Seq<char>)>, (nat, IniFault)> {
    ini_pairs(split_char(contents, '\n'))
}

/// The key/value pairs of an INI file, in file order.
pub struct IniValues {
    pairs: Vec<(String, String)>,
}

impl View for IniValues {
    type V = Seq<(Seq<char>, Seq<char>)>;

    closed spec fn view(&self) -> Seq<(Seq<char>, Seq<char>)> {
        pairs_view(self.pairs@)
    }
}

impl IniValues {
    /// The value set last for `key`.
    pub fn get(&self, key: &str) -> (r: Option<&String>)
        ensures
            match r {
                Some(v) => last_value(self@, key@) == Some(v@),
                None => last_value(self@, key@) is None,
            },
    {
        let mut i: usize = self.pairs.len();
        assert(self.pairs@.take(i as int) == self.pairs@);
        while i > 0
            invariant
                i <= self.pairs.len(),
                last_value(self@, key@) == last_value(pairs_view(self.pairs@.take(i as int)), key@),
            decreases i,
        {
            let ghost pre = pairs_view(self.pairs@.take(i as int));
            assert(pre.drop_last() == pairs_view(self.pairs@.take(i - 1)));
            assert(pre.last() == (self.pairs@[i - 1].0@, self.pairs@[i - 1].1@));
            if same_text(self.pairs[i - 1].0.as_str(), key) {
                return Some(&self.pairs[i - 1].1);
            }
            i = i - 1;
        }
        assert(pairs_view(self.pairs@.take(0)).len() == 0);
        None
    }

    /// The number of distinct keys set.
    pub fn len(&self) -> (n: usize)
        ensures
            n == ini_keys(self@).len(),
    {
        let ghost ps = self@;
        let mut count: usize = 0;
        let mut i: usize = 0;
        assert(ini_keys(ps.take(0)) =~= Set::<Seq<char>>::empty());
        while i < self.pairs.len()
            invariant
                i <= self.pairs.len(),
                ps == pairs_view(self.pairs@),
                ini_keys(ps.take(i as int)).finite(),
                count == ini_keys(ps.take(i as int)).len(),
                count <= i,
            decreases self.pairs.len() - i,
        {
            let mut seen = false;
            let mut j: usize = 0;
            while j < i
                invariant
                    j <= i < self.pairs.len(),
                    ps == pairs_view(self.pairs@),
                    seen == exists|k: int| 0 <= k < j && #[trigger] ps[k].0 == ps[i as int].0,
                decreases i - j,
            {
                assert(ps[j as int].0 == self.pairs@[j as int].0@);
                assert(ps[i as int].0 == self.pairs@[i as int].0@);
                if same_text(self.pairs[j].0.as_str(), self.pairs[i].0.as_str()) {
                    seen = true;
                }
                j = j + 1;
            }
            proof {
                let pre = ps.take(i as int);
                let next = ps.take(i + 1);
                let key = ps[i as int].0;
                assert(next == pre.push(ps[i as int]));
                assert(ini_keys(next) =~= ini_keys(pre).insert(key)) by {
                    assert forall|x: Seq<char>| #[trigger] ini_keys(next).contains(x) <==> ini_keys(pre).insert(key).contains(x) by {
                        if ini_keys(next).contains(x) {
                            let k = choose|k: int| 0 <= k < next.len() && #[trigger] next[k].0 == x;
                            if k < pre.len() {
                                assert(pre[k].0 == x);
                            }
                        }
                        if ini_keys(pre).contains(x) {
                            let k = choose|k: int| 0 <= k < pre.len() && #[trigger] pre[k].0 == x;
                            assert(next[k].0 == x);
                        }
                        if x == key {
                            assert(next[i as int].0 == x);
                        }
                    }
                }
                if seen {
                    let k = choose|k: int| 0 <= k < i && #[trigger] ps[k].0 == ps[i as int].0;
                    assert(pre[k].0 == key);
                    assert(ini_keys(pre).contains(key));
                } else {
                    assert(!ini_keys(pre).contains(key)) by {
                        if ini_keys(pre).contains(key) {
                            let k = choose|k: int| 0 <= k < pre.len() && #[trigger] pre[k].0 == key;
                            assert(ps[k].0 == key);
                        }
                    }
                }
            }
            if !seen {
                count = count + 1;
            }
            i = i + 1;
        }
        assert(ps.take(self.pairs.len() as int) =~= ps);
        count
    }
}

/// Reads `contents` as an INI file: blank lines, `#` and `;` comments and
/// `[section]` headers are skipped; every other line must be `key=value`
/// with a non-empty key. Keys are lowercased; a later line overrides an
/// earlier one for the same key.
pub fn parse_ini(contents: &str) -> (r: Result<IniValues, ConfigError>)
    ensures
        match r {
            Ok(v) => ini_outcome(contents@) == Ok::<_, (nat, IniFault)>(v@),
            Err(e) => exists|line: usize, f: IniFault|
                ini_outcome(contents@) == Err::<Seq<(Seq<char>, Seq<char>)>, _>((line as nat, f))
                    && e == ConfigError::InvalidIniLine(line, f),
        },
{
    let lines = split_on(contents, '\n');
    let ghost ls = labels_view(lines@);
    let mut pairs: Vec<(String, String)> = Vec::new();
    let mut i: usize = 0;
    assert(ls.take(0) =~= Seq::<Seq<char>>::empty());
    assert(pairs_view(pairs@) =~= Seq::<(Seq<char>, Seq<char>)>::empty());
    while i < lines.len()
        invariant
            i <= lines.len(),
            ls == labels_view(lines@),
            ls == split_char(contents@, '\n'),
            ini_pairs(ls.take(i as int)) == Ok::<_, (nat, IniFault)>(pairs_view(pairs@)),
        decreases lines.len() - i,
    {
        let ghost prefix = ls.take(i + 1);
        assert(prefix.drop_last() == ls.take(i as int));
        assert(prefix.last() == lines@[i as int]@);
        assert(prefix.len() == i + 1);
        let t = trim_whitespace(lines[i].as_str());
        let tc = chars_of(t.as_str());
        if tc.len() == 0 || tc[0] == '#' || tc[0] == ';' || tc[0] == '[' {
            i = i + 1;
            continue;
        }
        match find_char(&tc, '=') {
            None => {
                proof {
                    lemma_ini_error_persists(ls, i + 1);
                }
                return Err(ConfigError::InvalidIniLine(i + 1, IniFault::MissingEquals));
            },
            Some(p) => {
                let raw_key = string_from_chars(&tc, 0, p);
                assert(raw_key@ == t@.take(p as int));
                let trimmed_key = trim_whitespace(raw_key.as_str());
                let key = to_lowercase(trimmed_key.as_str());
                let kc = chars_of(key.as_str());
                if kc.len() == 0 {
                    proof {
                        lemma_ini_error_persists(ls, i + 1);
                    }
                    return Err(ConfigError::InvalidIniLine(i + 1, IniFault::EmptyKey));
                }
                let raw_value = string_from_chars(&tc, p + 1, tc.len());
                assert(raw_value@ == t@.skip(p + 1));
                let trimmed_value = trim_whitespace(raw_value.as_str());
                let value = trim_matches_char(trimmed_value.as_str(), '"');
                let ghost before = pairs@;
                pairs.push((key, value));
                assert(pairs_view(pairs@) == pairs_view(before).push((pairs@.last().0@, pairs@.last().1@)));
            },
        }
        i = i + 1;
    }
    assert(ls.take(lines.len() as int) == ls);
    Ok(IniValues { pairs })
}

/// Once a prefix of the lines fails, the whole file fails the same way.
proof fn lemma_ini_error_persists(lines: Seq<Seq<char>>, k: int)
    requires
        0 <= k <= lines.len(),
        ini_pairs(lines.take(k)) is Err,
    ensures
        ini_pairs(lines) == ini_pairs(lines.take(k)),
    decreases lines.len(),
{
    if k < lines.len() {
        assert(lines.drop_last().take(k) == lines.take(k));
        lemma_ini_error_persists(lines.drop_last(), k);
    } else {
        assert(lines.take(k) == lines);
    }
}

/// The trimmed value of `key` when it is set and not blank.
pub open spec fn required_outcome(pairs: Seq<(Seq<char>, Seq<char>)>, key: Seq<char>) -> Option<Seq<char>> {
    match last_value(pairs, key) {
        Some(v) => if trim_spaces(v).len() > 0 {
            Some(trim_spaces(v))
        } else {
            None
        },
        None => None,
    }
}

/// The trimmed value of a key that must be set to something other than
/// whitespace.
pub fn required(values: &IniValues, key: &str) -> (r: Result<String, ConfigError>)
    ensures
        match r {
            Ok(v) => required_outcome(values@, key@) == Some(v@),
            Err(e) => required_outcome(values@, key@) is None && (e matches ConfigError::MissingValue(k)
                && k@ == key@),
        },
{
    match values.get(key) {
        Some(v) => {
            let t = trim_whitespace(v.as_str());
            if chars_of(t.as_str()).len() > 0 {
                Ok(t)
            } else {
                Err(ConfigError::MissingValue(key.to_owned()))
            }
        },
        None => Err(ConfigError::MissingValue(key.to_owned())),
    }
}

/// A network address the file may set, as the caller parsed it.
#[derive(Debug)]
pub enum ParsedAddress<T> {
    /// The file does not set it.
    Unset,
    /// The file sets it to a value that does not parse.
    Invalid,
    Value(T),
}

/// The network addresses an INI file sets, parsed by the caller;
/// `root_hints` holds those of the listed root hints that parse, in order.
#[derive(Debug)]
pub struct IniAddresses {
    pub bind_host: ParsedAddress<IpValue>,
    pub http_host: ParsedAddress<IpValue>,
    pub cloudflare_dns: ParsedAddress<SocketValue>,
    pub router_dns: ParsedAddress<SocketValue>,
    pub root_hints: Vec<SocketValue>,
}

/// The parsed value, or `default` when the address is not set.
pub open spec fn address_or<T>(a: ParsedAddress<T>, default: T) -> T {
    match a {
        ParsedAddress::Value(v) => v,
        _ => default,
    }
}

/// The address settings of a file: each address as parsed, or its default
/// (127.0.0.1 for the hosts, 1.1.1.1 port 53 for Cloudflare, none for the
/// router); the root hints that parse.
pub open spec fn ini_addresses(a: IniAddresses, s: FileSettings) -> bool {
    &&& s.bind_host == address_or(a.bind_host, localhost())
    &&& s.http_host == address_or(a.http_host, localhost())
    &&& s.cloudflare_dns == address_or(a.cloudflare_dns, cloudflare_default())
    &&& s.router_dns == (match a.router_dns {
        ParsedAddress::Value(v) => Some(v),
        _ => None,
    })
    &&& s.root_hints@ == a.root_hints@
}

fn host_or_localhost(a: ParsedAddress<IpValue>) -> (r: IpValue)
    ensures
        r == address_or(a, localhost()),
{
    match a {
        ParsedAddress::Value(v) => v,
        _ => localhost_ip(),
    }
}

/// The first setting of a file that is missing or does not parse.
pub enum SettingFault {
    Missing(Seq<char>),
    Invalid(Seq<char>),
}

/// The value of `key`, or `default` when it is not set.
pub open spec fn value_or(pairs: Seq<(Seq<char>, Seq<char>)>, key: Seq<char>, default: Seq<char>) -> Seq<char> {
    match last_value(pairs, key) {
        Some(v) => v,
        None => default,
    }
}

/// The port `key` sets, `default` when it is not set, `None` when its value
/// is not a `u16`.
pub open spec fn port_value(pairs: Seq<(Seq<char>, Seq<char>)>, key: Seq<char>, default: u16) -> Option<u16> {
    match last_value(pairs, key) {
        Some(v) => u16_outcome(v),
        None => Some(default),
    }
}

/// The resolver mode the file sets (forwarding when unset).
pub open spec fn mode_value(pairs: Seq<(Seq<char>, Seq<char>)>) -> Option<ResolverMode> {
    match last_value(pairs, "resolver_mode"@) {
        Some(v) => mode_outcome(v),
        None => Some(ResolverMode::Forwarding),
    }
}

/// The resolver priority the file sets (Cloudflare first when unset).
pub open spec fn priority_value(pairs: Seq<(Seq<char>, Seq<char>)>) -> Option<ResolverPriority> {
    match last_value(pairs, "resolver_priority"@) {
        Some(v) => priority_outcome(v),
        None => Some(ResolverPriority::CloudflareFirst),
    }
}

/// The trimmed pieces of a list, blank ones left out, in order.
pub open spec fn nonblank_trimmed(pieces: Seq<Seq<char>>) -> Seq<Seq<char>>
    decreases pieces.len(),
{
    if pieces.len() == 0 {
        Seq::empty()
    } else {
        let prev = nonblank_trimmed(pieces.drop_last());
        let t = trim_spaces(pieces.last());
        if t.len() > 0 {
            prev.push(t)
        } else {
            prev
        }
    }
}

/// The items of a comma-separated list, trimmed, blank ones left out.
pub open spec fn csv_items(v: Seq<char>) -> Seq<Seq<char>> {
    nonblank_trimmed(split_char(v, ','))
}

/// The dashboard CORS origins: the listed ones, or `mydns.local` when the
/// list is unset or lists nothing.
pub open spec fn ini_cors(pairs: Seq<(Seq<char>, Seq<char>)>) -> Seq<Seq<char>> {
    match last_value(pairs, "cors_domains"@) {
        Some(v) => if csv_items(v).len() > 0 {
            csv_items(v)
        } else {
            seq!["mydns.local"@]
        },
        None => seq!["mydns.local"@],
    }
}

/// The zones the file lists, without trailing dots and lowercased.
pub open spec fn listed_ini_zones(pairs: Seq<(Seq<char>, Seq<char>)>) -> Seq<Seq<char>> {
    match last_value(pairs, "allowed_zones"@) {
        Some(v) => csv_items(v).map_values(|z: Seq<char>| normalize(z)),
        None => Seq::empty(),
    }
}

/// The authoritative zones: the listed ones without trailing dots and
/// lowercased, or `home.arpa` when none are listed.
pub open spec fn ini_zones(pairs: Seq<(Seq<char>, Seq<char>)>) -> Seq<Seq<char>> {
    let zones = listed_ini_zones(pairs);
    if zones.len() > 0 {
        zones
    } else {
        seq!["home.arpa"@]
    }
}

/// The first setting, in the order the file is read, that is missing or
/// does not parse.
pub open spec fn ini_fault(pairs: Seq<(Seq<char>, Seq<char>)>, checks: IniAddresses) -> Option<SettingFault> {
    if required_outcome(pairs, "admin_username"@) is None {
        Some(SettingFault::Missing("admin_username"@))
    } else if required_outcome(pairs, "admin_password"@) is None {
        Some(SettingFault::Missing("admin_password"@))
    } else if checks.bind_host is Invalid {
        Some(SettingFault::Invalid("bind_host"@))
    } else if port_value(pairs, "dns_port"@, 53) is None {
        Some(SettingFault::Invalid("dns_port"@))
    } else if checks.http_host is Invalid {
        Some(SettingFault::Invalid("http_host"@))
    } else if port_value(pairs, "http_port"@, 8080) is None {
        Some(SettingFault::Invalid("http_port"@))
    } else if mode_value(pairs) is None {
        Some(SettingFault::Invalid("resolver_mode"@))
    } else if priority_value(pairs) is None {
        Some(SettingFault::Invalid("resolver_priority"@))
    } else if checks.cloudflare_dns is Invalid {
        Some(SettingFault::Invalid("cloudflare_dns"@))
    } else if checks.router_dns is Invalid {
        Some(SettingFault::Invalid("router_dns"@))
    } else {
        None
    }
}

/// The settings every reading of the file shares: the credentials as set,
/// and each other setting as set or its default.
pub open spec fn ini_common(pairs: Seq<(Seq<char>, Seq<char>)>, s: FileSettings) -> bool {
    &&& required_outcome(pairs, "admin_username"@) == Some(s.admin_username@)
    &&& required_outcome(pairs, "admin_password"@) == Some(s.admin_password@)
    &&& port_value(pairs, "dns_port"@, 53) == Some(s.dns_port)
    &&& port_value(pairs, "http_port"@, 8080) == Some(s.http_port)
    &&& mode_value(pairs) == Some(s.resolver_mode)
    &&& priority_value(pairs) == Some(s.resolver_priority)
    &&& labels_view(s.cors_domains@) == ini_cors(pairs)
    &&& s.dashboard_domain@ == value_or(pairs, "dashboard_domain"@, "mydns.local"@)
    &&& s.db_path@ == value_or(pairs, "db_path"@, "mydns.db"@)
    &&& s.jwt_secret@ == value_or(pairs, "jwt_secret"@, ""@)
    &&& s.run_as_user@ == value_or(pairs, "run_as_user"@, "nobody"@)
    &&& s.run_as_group@ == value_or(pairs, "run_as_group"@, "nobody"@)
}

/// `e` reports `fault`.
pub open spec fn reports(e: ConfigError, fault: SettingFault) -> bool {
    match fault {
        SettingFault::Missing(k) => e matches ConfigError::MissingValue(x) && x@ == k,
        SettingFault::Invalid(k) => e matches ConfigError::InvalidValue(x) && x@ == k,
    }
}

/// The value of `key`, or `default` when it is not set.
pub fn get_or(values: &IniValues, key: &str, default: &str) -> (r: String)
    ensures
        r@ == value_or(values@, key@, default@),
{
    match values.get(key) {
        Some(v) => v.clone(),
        None => default.to_owned(),
    }
}

/// The port `key` sets, `default` when unset, `None` when it does not parse.
pub fn get_port(values: &IniValues, key: &str, default: u16) -> (r: Option<u16>)
    ensures
        r == port_value(values@, key@, default),
{
    match values.get(key) {
        Some(v) => parse_u16(v.as_str()),
        None => Some(default),
    }
}

/// The trimmed, non-blank items of the comma-separated list `v`.
pub fn list_items(v: &str) -> (r: Vec<String>)
    ensures
        labels_view(r@) == csv_items(v@),
{
    let pieces = split_on(v, ',');
    let ghost ps = labels_view(pieces@);
    let mut out: Vec<String> = Vec::new();
    let mut i: usize = 0;
    assert(ps.take(0) =~= Seq::<Seq<char>>::empty());
    assert(labels_view(out@) =~= Seq::<Seq<char>>::empty());
    while i < pieces.len()
        invariant
            i <= pieces.len(),
            ps == labels_view(pieces@),
            ps == split_char(v@, ','),
            labels_view(out@) == nonblank_trimmed(ps.take(i as int)),
        decreases pieces.len() - i,
    {
        assert(ps.take(i + 1).drop_last() == ps.take(i as int));
        assert(ps.take(i + 1).last() == pieces@[i as int]@);
        let t = trim_whitespace(pieces[i].as_str());
        if chars_of(t.as_str()).len() > 0 {
            let ghost before = out@;
            out.push(t);
            assert(labels_view(out@) =~= labels_view(before).push(t@));
        }
        i = i + 1;
    }
    assert(ps.take(pieces.len() as int) == ps);
    out
}

/// Each of `items` without trailing dots and lowercased.
pub fn zone_names(items: &Vec<String>) -> (r: Vec<String>)
    ensures
        labels_view(r@) == labels_view(items@).map_values(|z: Seq<char>| normalize(z)),
{
    let mut out: Vec<String> = Vec::new();
    let mut i: usize = 0;
    while i < items.len()
        invariant
            i <= items.len(),
            labels_view(out@) == labels_view(items@).take(i as int).map_values(|z: Seq<char>| normalize(z)),
        decreases items.len() - i,
    {
        let z = normalize_name(items[i].as_str());
        let ghost before = out@;
        out.push(z);
        assert(labels_view(out@) =~= labels_view(before).push(out@.last()@));
        assert(labels_view(items@).take(i + 1)[i as int] == items@[i as int]@);
        assert(labels_view(items@).take(i + 1).map_values(|z: Seq<char>| normalize(z)) =~= labels_view(
            items@,
        ).take(i as int).map_values(|z: Seq<char>| normalize(z)).push(normalize(items@[i as int]@)));
        i = i + 1;
    }
    assert(labels_view(items@).take(items.len() as int) == labels_view(items@));
    out
}

/// The zones the file lists, without trailing dots and lowercased.
pub fn ini_zone_list(values: &IniValues) -> (r: Vec<String>)
    ensures
        labels_view(r@) == listed_ini_zones(values@),
{
    match values.get("allowed_zones") {
        Some(v) => zone_names(&list_items(v.as_str())),
        None => {
            let z: Vec<String> = Vec::new();
            assert(labels_view(z@) =~= Seq::<Seq<char>>::empty());
            z
        },
    }
}

/// The settings of an INI file. The caller parses the network addresses the
/// file sets and hands them over in `addresses`; settings are checked in the order
/// the file format lists them, and the first that is missing or does not
/// parse is reported.
pub fn ini_settings(values: &IniValues, addresses: IniAddresses) -> (r: Result<FileSettings, ConfigError>)
    ensures
        match r {
            Ok(s) => {
                &&& ini_fault(values@, addresses) is None
                &&& ini_common(values@, s)
                &&& ini_addresses(addresses, s)
                &&& s.observability_db_path@ == "observability.db"@
                &&& s.timezone@ == "UTC"@
                &&& labels_view(s.allowed_zones@) == ini_zones(values@)
            },
            Err(e) => match ini_fault(values@, addresses) {
                Some(f) => reports(e, f),
                None => false,
            },
        },
{
    let admin_username = match required(values, "admin_username") {
        Ok(v) => v,
        Err(e) => {
            return Err(e);
        },
    };
    let admin_password = match required(values, "admin_password") {
        Ok(v) => v,
        Err(e) => {
            return Err(e);
        },
    };
    if matches!(addresses.bind_host, ParsedAddress::Invalid) {
        return Err(ConfigError::InvalidValue("bind_host".to_owned()));
    }
    let dns_port = match get_port(values, "dns_port", 53) {
        Some(p) => p,
        None => {
            return Err(ConfigError::InvalidValue("dns_port".to_owned()));
        },
    };
    if matches!(addresses.http_host, ParsedAddress::Invalid) {
        return Err(ConfigError::InvalidValue("http_host".to_owned()));
    }
    let http_port = match get_port(values, "http_port", 8080) {
        Some(p) => p,
        None => {
            return Err(ConfigError::InvalidValue("http_port".to_owned()));
        },
    };
    let resolver_mode = match values.get("resolver_mode") {
        Some(v) => match ResolverMode::parse(v.as_str()) {
            Ok(m) => m,
            Err(_) => {
                return Err(ConfigError::InvalidValue("resolver_mode".to_owned()));
            },
        },
        None => ResolverMode::Forwarding,
    };
    let resolver_priority = match values.get("resolver_priority") {
        Some(v) => match ResolverPriority::parse(v.as_str()) {
            Ok(p) => p,
            Err(_) => {
                return Err(ConfigError::InvalidValue("resolver_priority".to_owned()));
            },
        },
        None => ResolverPriority::CloudflareFirst,
    };
    if matches!(addresses.cloudflare_dns, ParsedAddress::Invalid) {
        return Err(ConfigError::InvalidValue("cloudflare_dns".to_owned()));
    }
    if matches!(addresses.router_dns, ParsedAddress::Invalid) {
        return Err(ConfigError::InvalidValue("router_dns".to_owned()));
    }
    let cors_domains = match values.get("cors_domains") {
        Some(v) => {
            let items = list_items(v.as_str());
            if items.len() > 0 {
                items
            } else {
                let mut d: Vec<String> = Vec::new();
                d.push("mydns.local".to_owned());
                assert(labels_view(d@) =~= seq!["mydns.local"@]);
                d
            }
        },
        None => {
            let mut d: Vec<String> = Vec::new();
            d.push("mydns.local".to_owned());
            assert(labels_view(d@) =~= seq!["mydns.local"@]);
            d
        },
    };
    let mut allowed_zones = ini_zone_list(values);
    if allowed_zones.len() == 0 {
        allowed_zones.push("home.arpa".to_owned());
        assert(labels_view(allowed_zones@) =~= seq!["home.arpa"@]);
    }
    let cloudflare_dns = match addresses.cloudflare_dns {
        ParsedAddress::Value(v) => v,
        _ => cloudflare_address(),
    };
    let router_dns = match addresses.router_dns {
        ParsedAddress::Value(v) => Some(v),
        _ => None,
    };
    Ok(FileSettings {
        bind_host: host_or_localhost(addresses.bind_host),
        http_host: host_or_localhost(addresses.http_host),
        cloudflare_dns,
        router_dns,
        root_hints: addresses.root_hints,
        dns_port,
        http_port,
        cors_domains,
        dashboard_domain: get_or(values, "dashboard_domain", "mydns.local"),
        db_path: get_or(values, "db_path", "mydns.db"),
        observability_db_path: "observability.db".to_owned(),
        timezone: "UTC".to_owned(),
        jwt_secret: get_or(values, "jwt_secret", ""),
        admin_username,
        admin_password,
        resolver_mode,
        resolver_priority,
        run_as_user: get_or(values, "run_as_user", "nobody"),
        run_as_group: get_or(values, "run_as_group", "nobody"),
        allowed_zones,
    })
}

/// The root hints an INI file lists, as written: the caller keeps those that
/// parse as socket addresses.
pub fn ini_root_hints(values: &IniValues) -> (r: Vec<String>)
    ensures
        labels_view(r@) == match last_value(values@, "root_hints"@) {
            Some(v) => csv_items(v),
            None => Seq::<Seq<char>>::empty(),
        },
{
    match values.get("root_hints") {
        Some(v) => list_items(v.as_str()),
        None => {
            let z: Vec<String> = Vec::new();
            assert(labels_view(z@) =~= Seq::<Seq<char>>::empty());
            z
        },
    }
}

} // verus!
