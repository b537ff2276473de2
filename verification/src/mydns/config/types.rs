//! Resolver settings and the errors that configuration loading reports.
use vstd::prelude::*;
use crate::names::{decimal, lowercase, same_text, to_lowercase, trim_spaces, trim_whitespace, push_str, push_decimal};

verus! {

/// Mode of operation for non-authoritative DNS resolution.
#[derive(Debug, Clone, Copy, PartialEq, Eq, Structural)]
pub enum ResolverMode {
    /// Forward queries to upstream DNS forwarders (the default).
    Forwarding,
    /// Full iterative recursive resolution starting from root servers.
    Recursive,
}

/// Which upstream DNS server is tried first on a cache/DB miss in forwarding mode.
#[derive(Debug, Clone, Copy, PartialEq, Eq, Structural)]
pub enum ResolverPriority {
    /// Try Cloudflare first, then the router gateway (the default).
    CloudflareFirst,
    /// Try the router gateway first, then Cloudflare.
    RouterFirst,
}

/// A line of an INI file that is neither blank, a comment, a section header
/// nor a `key=value` pair with a non-empty key.
#[derive(Debug, Clone, Copy, PartialEq, Eq, Structural)]
pub enum IniFault {
    /// The line holds no `'='`.
    MissingEquals,
    /// The key before `'='` is empty.
    EmptyKey,
}

/// Why a configuration could not be loaded.
#[derive(Debug)]
pub enum ConfigError {
    /// A resolver mode other than the accepted spellings; holds the trimmed,
    /// lowercased input.
    UnknownResolverMode(String),
    /// A resolver priority other than the accepted spellings.
    UnknownResolverPriority(String),
    /// A malformed INI line, numbered from 1.
    InvalidIniLine(usize, IniFault),
    /// A required key is absent or blank.
    MissingValue(String),
    /// A key whose value does not parse.
    InvalidValue(String),
    /// A required TOML field is absent or blank.
    MissingTomlField(String),
    /// A timezone name the timezone database does not know, with the reason
    /// the database gave.
    InvalidTimezone(String, String),
}

/// The text a resolver mode is written as in configuration files.
pub open spec fn mode_text(m: ResolverMode) -> Seq<char> {
    match m {
        ResolverMode::Forwarding => "forwarding"@,
        ResolverMode::Recursive => "recursive"@,
    }
}

/// The text a resolver priority is written as in configuration files.
pub open spec fn priority_text(p: ResolverPriority) -> Seq<char> {
    match p {
        ResolverPriority::CloudflareFirst => "cloudflare_first"@,
        ResolverPriority::RouterFirst => "router_first"@,
    }
}

/// The resolver mode `s` names: surrounding whitespace and case are ignored,
/// and `forward` and `recurse` are accepted as aliases.
pub open spec fn mode_outcome(s: Seq<char>) -> Option<ResolverMode> {
    let t = lowercase(trim_spaces(s));
    if t == "forwarding"@ || t == "forward"@ {
        Some(ResolverMode::Forwarding)
    } else if t == "recursive"@ || t == "recurse"@ {
        Some(ResolverMode::Recursive)
    } else {
        None
    }
}

/// The resolver priority `s` spells exactly.
pub open spec fn priority_outcome(s: Seq<char>) -> Option<ResolverPriority> {
    if s == "cloudflare_first"@ {
        Some(ResolverPriority::CloudflareFirst)
    } else if s == "router_first"@ {
        Some(ResolverPriority::RouterFirst)
    } else {
        None
    }
}

impl Default for ResolverMode {
    fn default() -> (r: Self)
        ensures
            r == ResolverMode::Forwarding,
    {
        ResolverMode::Forwarding
    }
}

impl Default for ResolverPriority {
    fn default() -> (r: Self)
        ensures
            r == ResolverPriority::CloudflareFirst,
    {
        ResolverPriority::CloudflareFirst
    }
}

impl ResolverMode {
    /// The configuration value of this mode.
    pub fn to_string(&self) -> (s: String)
        ensures
            s@ == mode_text(*self),
    {
        match self {
            ResolverMode::Forwarding => String::from_str("forwarding"),
            ResolverMode::Recursive => String::from_str("recursive"),
        }
    }

    /// Parses a resolver mode, ignoring surrounding whitespace and case.
    pub fn parse(s: &str) -> (r: Result<ResolverMode, ConfigError>)
        ensures
            match r {
                Ok(m) => mode_outcome(s@) == Some(m),
                Err(e) => mode_outcome(s@) is None && (e matches ConfigError::UnknownResolverMode(t)
                    && t@ == lowercase(trim_spaces(s@))),
            },
    {
        let trimmed = trim_whitespace(s);
        let t = to_lowercase(trimmed.as_str());
        if same_text(t.as_str(), "forwarding") || same_text(t.as_str(), "forward") {
            Ok(ResolverMode::Forwarding)
        } else if same_text(t.as_str(), "recursive") || same_text(t.as_str(), "recurse") {
            Ok(ResolverMode::Recursive)
        } else {
            Err(ConfigError::UnknownResolverMode(t))
        }
    }
}

impl ResolverPriority {
    /// The configuration value of this priority.
    pub fn to_string(&self) -> (s: String)
        ensures
            s@ == priority_text(*self),
    {
        match self {
            ResolverPriority::CloudflareFirst => String::from_str("cloudflare_first"),
            ResolverPriority::RouterFirst => String::from_str("router_first"),
        }
    }

    /// Parses a resolver priority, which must be spelled exactly.
    pub fn parse(s: &str) -> (r: Result<ResolverPriority, ConfigError>)
        ensures
            match r {
                Ok(p) => priority_outcome(s@) == Some(p),
                Err(e) => priority_outcome(s@) is None && (e matches ConfigError::UnknownResolverPriority(t)
                    && t@ == s@),
            },
    {
        if same_text(s, "cloudflare_first") {
            Ok(ResolverPriority::CloudflareFirst)
        } else if same_text(s, "router_first") {
            Ok(ResolverPriority::RouterFirst)
        } else {
            Err(ConfigError::UnknownResolverPriority(s.to_owned()))
        }
    }
}

impl std::str::FromStr for ResolverMode {
    type Err = ConfigError;

    fn from_str(s: &str) -> (r: Result<Self, Self::Err>)
        ensures
            match r {
                Ok(m) => mode_outcome(s@) == Some(m),
                Err(e) => mode_outcome(s@) is None && (e matches ConfigError::UnknownResolverMode(t)
                    && t@ == lowercase(trim_spaces(s@))),
            },
    {
        ResolverMode::parse(s)
    }
}

impl std::str::FromStr for ResolverPriority {
    type Err = ConfigError;

    fn from_str(s: &str) -> (r: Result<Self, Self::Err>)
        ensures
            match r {
                Ok(p) => priority_outcome(s@) == Some(p),
                Err(e) => priority_outcome(s@) is None && (e matches ConfigError::UnknownResolverPriority(t)
                    && t@ == s@),
            },
    {
        ResolverPriority::parse(s)
    }
}

/// The text of an error, as shown to the operator.
pub open spec fn error_text(e: &ConfigError) -> Seq<char> {
    match e {
        ConfigError::UnknownResolverMode(s) => "Unknown resolver mode: '"@ + s@ + "'"@,
        ConfigError::UnknownResolverPriority(s) => "Unknown resolver priority: '"@ + s@ + "'"@,
        ConfigError::InvalidIniLine(line, fault) => "Invalid config.ini line "@ + decimal(*line as nat) + match fault {
            IniFault::MissingEquals => ": expected key=value"@,
            IniFault::EmptyKey => ": empty key"@,
        },
        ConfigError::MissingValue(k) => "Missing required config value: "@ + k@,
        ConfigError::InvalidValue(k) => "Invalid "@ + k@,
        ConfigError::MissingTomlField(k) => "Missing required config.toml field: "@ + k@,
        ConfigError::InvalidTimezone(z, why) => "Invalid system.timezone '"@ + z@ + "': "@ + why@,
    }
}

impl ConfigError {
    /// The message shown to the operator for this error.
    pub fn message(&self) -> (m: String)
        ensures
            m@ == error_text(self),
    {
        let mut m = String::new();
        match self {
            ConfigError::UnknownResolverMode(s) => {
                push_str(&mut m, "Unknown resolver mode: '");
                push_str(&mut m, s.as_str());
                push_str(&mut m, "'");
            },
            ConfigError::UnknownResolverPriority(s) => {
                push_str(&mut m, "Unknown resolver priority: '");
                push_str(&mut m, s.as_str());
                push_str(&mut m, "'");
            },
            ConfigError::InvalidIniLine(line, fault) => {
                push_str(&mut m, "Invalid config.ini line ");
                push_decimal(&mut m, *line);
                match fault {
                    IniFault::MissingEquals => push_str(&mut m, ": expected key=value"),
                    IniFault::EmptyKey => push_str(&mut m, ": empty key"),
                }
            },
            ConfigError::MissingValue(k) => {
                push_str(&mut m, "Missing required config value: ");
                push_str(&mut m, k.as_str());
            },
            ConfigError::InvalidValue(k) => {
                push_str(&mut m, "Invalid ");
                push_str(&mut m, k.as_str());
            },
            ConfigError::MissingTomlField(k) => {
                push_str(&mut m, "Missing required config.toml field: ");
                push_str(&mut m, k.as_str());
            },
            ConfigError::InvalidTimezone(z, why) => {
                push_str(&mut m, "Invalid system.timezone '");
                push_str(&mut m, z.as_str());
                push_str(&mut m, "': ");
                push_str(&mut m, why.as_str());
            },
        }
        m
    }
}

/// A resolver priority written as its configuration value reads back as itself.
pub proof fn lemma_priority_round_trip(p: ResolverPriority)
    ensures
        priority_outcome(priority_text(p)) == Some(p),
{
    reveal_strlit("cloudflare_first");
    reveal_strlit("router_first");
    assert("router_first"@[0] != "cloudflare_first"@[0]);
}

/// An IP address: an IPv4 address by its 32-bit number, an IPv6 address by
/// its 128-bit number.
#[derive(Debug, Clone, Copy, PartialEq, Eq, Structural)]
pub enum IpValue {
    V4(u32),
    V6(u128),
}

/// A socket address: IP address and port.
#[derive(Debug, Clone, Copy, PartialEq, Eq, Structural)]
pub struct SocketValue {
    pub ip: IpValue,
    pub port: u16,
}

/// The address every host setting defaults to: 127.0.0.1.
pub open spec fn localhost() -> IpValue {
    IpValue::V4(0x7f00_0001)
}

/// The forwarder used when none is configured: Cloudflare, 1.1.1.1 port 53.
pub open spec fn cloudflare_default() -> SocketValue {
    SocketValue { ip: IpValue::V4(0x0101_0101), port: 53 }
}

/// 127.0.0.1.
pub fn localhost_ip() -> (a: IpValue)
    ensures
        a == localhost(),
{
    IpValue::V4(0x7f00_0001)
}

/// 1.1.1.1 port 53.
pub fn cloudflare_address() -> (a: SocketValue)
    ensures
        a == cloudflare_default(),
{
    SocketValue { ip: IpValue::V4(0x0101_0101), port: 53 }
}

/// A copy of a list of socket addresses.
pub fn copy_addresses(v: &Vec<SocketValue>) -> (r: Vec<SocketValue>)
    ensures
        r@ == v@,
{
    let mut out: Vec<SocketValue> = Vec::new();
    let mut i: usize = 0;
    while i < v.len()
        invariant
            i <= v.len(),
            out@ == v@.take(i as int),
        decreases v.len() - i,
    {
        out.push(v[i]);
        assert(out@ =~= v@.take(i + 1));
        i = i + 1;
    }
    assert(v@.take(v.len() as int) =~= v@);
    out
}

/// The settings a configuration file yields.
#[derive(Debug)]
pub struct FileSettings {
    pub bind_host: IpValue,
    pub http_host: IpValue,
    pub cloudflare_dns: SocketValue,
    pub router_dns: Option<SocketValue>,
    pub root_hints: Vec<SocketValue>,
    pub dns_port: u16,
    pub http_port: u16,
    pub cors_domains: Vec<String>,
    pub dashboard_domain: String,
    pub db_path: String,
    pub observability_db_path: String,
    pub timezone: String,
    pub jwt_secret: String,
    pub admin_username: String,
    pub admin_password: String,
    pub resolver_mode: ResolverMode,
    pub resolver_priority: ResolverPriority,
    pub run_as_user: String,
    pub run_as_group: String,
    pub allowed_zones: Vec<String>,
}

} // verus!
