//! Configuration under the first server generation's `config` path. The
//! types are the current ones; the first generation reads the files almost
//! alike, with two differences: its zone lists have no `home.arpa` default,
//! and `config.toml` zones are not trimmed (it reads no timezone either).
use vstd::prelude::*;
use crate::names::{labels_view, normalize};
use crate::mydns::config::ini::{
    ini_addresses, ini_common, ini_fault, ini_zone_list, listed_ini_zones, reports, IniAddresses, IniValues,
};
use crate::mydns::config::toml::{
    credential, credential_field, lemma_zone_items_keep, listed_zone_list, listed_zones, settings_of, toml_common, zone_items, TomlFields,
};
pub use crate::mydns::config::{
    generate_secret, ConfigError, FileSettings, ResolverMode, ResolverPriority,
};

verus! {

/// The authoritative zones of `config.toml`: each listed zone without
/// trailing dots and lowercased, empty ones left out; none when none remain.
pub open spec fn first_toml_zones(f: TomlFields) -> Seq<Seq<char>> {
    zone_items(listed_zones(f), false)
}

/// The first rule the fields break: a missing or blank admin username, then
/// password.
pub open spec fn first_toml_fault(f: TomlFields) -> Option<Seq<char>> {
    if credential(f.admin_username) is None {
        Some("[auth].admin_username"@)
    } else if credential(f.admin_password) is None {
        Some("[auth].admin_password"@)
    } else {
        None
    }
}

/// The settings of `config.toml`: admin credentials must be set and not
/// blank; everything else takes its default when left out. The timezone and
/// observability database path are not read and hold their defaults.
pub fn toml_settings(f: &TomlFields) -> (r: Result<FileSettings, ConfigError>)
    ensures
        match r {
            Ok(s) => {
                &&& first_toml_fault(*f) is None
                &&& toml_common(*f, s)
                &&& s.timezone@ == "UTC"@
                &&& s.observability_db_path@ == "observability.db"@
                &&& labels_view(s.allowed_zones@) == first_toml_zones(*f)
            },
            Err(e) => match first_toml_fault(*f) {
                Some(k) => e matches ConfigError::MissingTomlField(x) && x@ == k,
                None => false,
            },
        },
{
    let admin_username = match credential_field(&f.admin_username) {
        Some(s) => s,
        None => {
            return Err(ConfigError::MissingTomlField("[auth].admin_username".to_owned()));
        },
    };
    let admin_password = match credential_field(&f.admin_password) {
        Some(s) => s,
        None => {
            return Err(ConfigError::MissingTomlField("[auth].admin_password".to_owned()));
        },
    };
    let zones = listed_zone_list(f, false);
    Ok(settings_of(f, admin_username, admin_password, "UTC".to_owned(), "observability.db".to_owned(), zones))
}

/// The settings of an INI file, checked as the current reading checks them;
/// the zones are the listed ones, without a default.
pub fn ini_settings(values: &IniValues, addresses: IniAddresses) -> (r: Result<FileSettings, ConfigError>)
    ensures
        match r {
            Ok(s) => {
                &&& ini_fault(values@, addresses) is None
                &&& ini_common(values@, s)
                &&& ini_addresses(addresses, s)
                &&& s.observability_db_path@ == "observability.db"@
                &&& s.timezone@ == "UTC"@
                &&& labels_view(s.allowed_zones@) == listed_ini_zones(values@)
            },
            Err(e) => match ini_fault(values@, addresses) {
                Some(fault) => reports(e, fault),
                None => false,
            },
        },
{
    match crate::mydns::config::ini::ini_settings(values, addresses) {
        Ok(s) => {
            let zones = ini_zone_list(values);
            Ok(FileSettings { allowed_zones: zones, ..s })
        },
        Err(e) => Err(e),
    }
}

/// The zones of this generation's `config.toml` come from `authoritative`
/// when it is set, and from `allowed` otherwise: every listed zone that is
/// not empty once normalised is among them, without trailing dots and
/// lowercased.
pub proof fn lemma_first_listed_zones_are_served(f: TomlFields, i: int)
    ensures
        (match f.authoritative {
            Some(v) => 0 <= i < v@.len() && normalize(v@[i]@).len() > 0,
            None => false,
        }) ==> first_toml_zones(f).contains(normalize(f.authoritative->0@[i]@)),
        (f.authoritative is None && match f.allowed {
            Some(v) => 0 <= i < v@.len() && normalize(v@[i]@).len() > 0,
            None => false,
        }) ==> first_toml_zones(f).contains(normalize(f.allowed->0@[i]@)),
{
    let l = listed_zones(f);
    if 0 <= i < l.len() && normalize(l[i]).len() > 0 {
        lemma_zone_items_keep(l, false, i);
    }
}

} // verus!
