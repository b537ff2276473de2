use mydns::mydns::config::ini::{ini_root_hints, ini_settings, parse_ini, required, IniAddresses, ParsedAddress};
use mydns::mydns::config::toml::{toml_settings, TomlFields};
use mydns::mydns::config::{
    generate_secret, ConfigError, IniFault, IpValue, ResolverMode, ResolverPriority, SocketValue,
};

#[test]
fn resolver_mode_parses_aliases_and_rejects_unknown_values() {
    assert_eq!(
        "forward".parse::<ResolverMode>().unwrap(),
        ResolverMode::Forwarding
    );
    assert_eq!(
        " FORWARDING ".parse::<ResolverMode>().unwrap(),
        ResolverMode::Forwarding
    );
    assert_eq!(
        "recurse".parse::<ResolverMode>().unwrap(),
        ResolverMode::Recursive
    );
    assert!("authoritative".parse::<ResolverMode>().is_err());
}

#[test]
fn resolver_priority_requires_supported_spelling() {
    assert_eq!(
        "cloudflare_first".parse::<ResolverPriority>().unwrap(),
        ResolverPriority::CloudflareFirst
    );
    assert_eq!(
        "router_first".parse::<ResolverPriority>().unwrap(),
        ResolverPriority::RouterFirst
    );
    assert!("Cloudflare_First".parse::<ResolverPriority>().is_err());
}

#[test]
fn resolver_enums_display_as_config_values() {
    assert_eq!(ResolverMode::Forwarding.to_string(), "forwarding");
    assert_eq!(ResolverMode::Recursive.to_string(), "recursive");
    assert_eq!(
        ResolverPriority::CloudflareFirst.to_string(),
        "cloudflare_first"
    );
    assert_eq!(ResolverPriority::RouterFirst.to_string(), "router_first");
}

#[test]
fn ini_parser_ignores_comments_sections_and_normalizes_keys() {
    let values = parse_ini(
        r#"
# comment
; another comment
[server]
BIND_HOST = "127.0.0.1"
dns_port = 5353

"#,
    )
    .unwrap();

    assert_eq!(values.get("bind_host").unwrap(), "127.0.0.1");
    assert_eq!(values.get("dns_port").unwrap(), "5353");
}

#[test]
fn ini_parser_rejects_malformed_lines_and_empty_keys() {
    assert!(parse_ini("not-a-pair").is_err());
    assert!(parse_ini(" = value").is_err());
}

#[test]
fn generate_secret_returns_requested_length() {
    assert_eq!(generate_secret(0).len(), 0);
    assert_eq!(generate_secret(32).len(), 32);
}

#[test]
fn secret_is_alphanumeric() {
    let s = generate_secret(64);
    assert!(s.chars().all(|c| c.is_ascii_alphanumeric()));
}

#[test]
fn ini_errors_carry_line_numbers() {
    match parse_ini("# header\nkey=value\nbroken\n") {
        Err(ConfigError::InvalidIniLine(line, IniFault::MissingEquals)) => assert_eq!(line, 3),
        other => panic!("unexpected {:?}", other.map(|v| v.len())),
    }
    match parse_ini("a=1\r\n  =2\r\n") {
        Err(ConfigError::InvalidIniLine(line, IniFault::EmptyKey)) => assert_eq!(line, 2),
        other => panic!("unexpected {:?}", other.map(|v| v.len())),
    }
    let err = parse_ini("x\n").err().unwrap();
    assert_eq!(err.message(), "Invalid config.ini line 1: expected key=value");
}

#[test]
fn ini_later_lines_override_and_values_are_unquoted() {
    let values = parse_ini("Key = \"first\"\r\nkey=second=third\n").unwrap();
    assert_eq!(values.len(), 1);
    assert_eq!(parse_ini("a=1\nb=2\na=3\n").unwrap().len(), 2);
    assert_eq!(values.get("key").unwrap(), "second=third");
    assert!(values.get("missing").is_none());
}

#[test]
fn required_rejects_blank_and_trims() {
    let values = parse_ini("admin_username =  root  \nadmin_password = \"  \"\n").unwrap();
    assert_eq!(required(&values, "admin_username").unwrap(), "root");
    match required(&values, "admin_password") {
        Err(ConfigError::MissingValue(k)) => assert_eq!(k, "admin_password"),
        _ => panic!("blank value must be missing"),
    }
    assert!(required(&values, "absent").is_err());
}

fn all_addresses_ok() -> IniAddresses {
    IniAddresses {
        bind_host: ParsedAddress::Unset,
        http_host: ParsedAddress::Unset,
        cloudflare_dns: ParsedAddress::Unset,
        router_dns: ParsedAddress::Unset,
        root_hints: Vec::new(),
    }
}

#[test]
fn ini_settings_apply_defaults() {
    let values = parse_ini("admin_username=admin\nadmin_password=pw\n").unwrap();
    let s = ini_settings(&values, all_addresses_ok()).unwrap();
    assert_eq!(s.dns_port, 53);
    assert_eq!(s.http_port, 8080);
    assert_eq!(s.cors_domains, vec!["mydns.local"]);
    assert_eq!(s.dashboard_domain, "mydns.local");
    assert_eq!(s.db_path, "mydns.db");
    assert_eq!(s.jwt_secret, "");
    assert_eq!(s.run_as_user, "nobody");
    assert_eq!(s.run_as_group, "nobody");
    assert_eq!(s.resolver_mode, ResolverMode::Forwarding);
    assert_eq!(s.resolver_priority, ResolverPriority::CloudflareFirst);
    assert_eq!(s.allowed_zones, vec!["home.arpa"]);
    assert!(ini_root_hints(&values).is_empty());
    assert_eq!(s.bind_host, IpValue::V4(0x7f00_0001));
    assert_eq!(s.http_host, IpValue::V4(0x7f00_0001));
    assert_eq!(s.cloudflare_dns, SocketValue { ip: IpValue::V4(0x0101_0101), port: 53 });
    assert_eq!(s.router_dns, None);
    assert!(s.root_hints.is_empty());
}

#[test]
fn ini_settings_take_the_parsed_addresses() {
    let values = parse_ini("admin_username=admin\nadmin_password=pw\n").unwrap();
    let hint = SocketValue { ip: IpValue::V4(0xc629_0004), port: 53 };
    let router = SocketValue { ip: IpValue::V6(1), port: 5353 };
    let addresses = IniAddresses {
        bind_host: ParsedAddress::Value(IpValue::V4(0)),
        http_host: ParsedAddress::Unset,
        cloudflare_dns: ParsedAddress::Unset,
        router_dns: ParsedAddress::Value(router),
        root_hints: vec![hint],
    };
    let s = ini_settings(&values, addresses).unwrap();
    assert_eq!(s.bind_host, IpValue::V4(0));
    assert_eq!(s.http_host, IpValue::V4(0x7f00_0001));
    assert_eq!(s.router_dns, Some(router));
    assert_eq!(s.root_hints, vec![hint]);
}

#[test]
fn ini_settings_read_lists_and_values() {
    let values = parse_ini(
        "admin_username=admin\nadmin_password=pw\ndns_port=+5353\nresolver_mode= Recurse \n\
         resolver_priority=router_first\ncors_domains= a.local , ,b.local\n\
         allowed_zones=Home.LOCAL., lab.local\nroot_hints=198.41.0.4:53, ,bad\n",
    )
    .unwrap();
    let s = ini_settings(&values, all_addresses_ok()).unwrap();
    assert_eq!(s.dns_port, 5353);
    assert_eq!(s.resolver_mode, ResolverMode::Recursive);
    assert_eq!(s.resolver_priority, ResolverPriority::RouterFirst);
    assert_eq!(s.cors_domains, vec!["a.local", "b.local"]);
    assert_eq!(s.allowed_zones, vec!["home.local", "lab.local"]);
    assert_eq!(ini_root_hints(&values), vec!["198.41.0.4:53", "bad"]);
}

#[test]
fn ini_settings_report_first_fault_in_order() {
    let values = parse_ini("admin_password=pw\ndns_port=70000\n").unwrap();
    match ini_settings(&values, all_addresses_ok()) {
        Err(ConfigError::MissingValue(k)) => assert_eq!(k, "admin_username"),
        _ => panic!("username is checked first"),
    }
    let values = parse_ini("admin_username=a\nadmin_password=pw\ndns_port=70000\n").unwrap();
    let mut checks = all_addresses_ok();
    checks.bind_host = ParsedAddress::Invalid;
    match ini_settings(&values, checks) {
        Err(ConfigError::InvalidValue(k)) => assert_eq!(k, "bind_host"),
        _ => panic!("bind_host is checked before dns_port"),
    }
    match ini_settings(&values, all_addresses_ok()) {
        Err(ConfigError::InvalidValue(k)) => assert_eq!(k, "dns_port"),
        _ => panic!("port 70000 does not fit"),
    }
    let values = parse_ini("admin_username=a\nadmin_password=pw\nresolver_priority=Router_First\n").unwrap();
    match ini_settings(&values, all_addresses_ok()) {
        Err(ConfigError::InvalidValue(k)) => assert_eq!(k, "resolver_priority"),
        _ => panic!("priority spelling is exact"),
    }
}

fn toml_fields(user: Option<&str>, password: Option<&str>) -> TomlFields {
    TomlFields {
        bind_host: None,
        http_host: None,
        cloudflare_dns: None,
        router_dns: None,
        root_hints: None,
        timezone: None,
        dns_port: None,
        http_port: None,
        run_as_user: None,
        run_as_group: None,
        db_path: None,
        observability_path: None,
        admin_username: user.map(|s| s.to_string()),
        admin_password: password.map(|s| s.to_string()),
        jwt_secret: None,
        mode: None,
        priority: None,
        authoritative: None,
        allowed: None,
        dashboard_domain: None,
        cors_domains: None,
    }
}

#[test]
fn toml_settings_normalize_and_default_allowed_zones() {
    let mut f = toml_fields(Some("admin"), Some("password"));
    f.authoritative = Some(vec!["Example.COM.".to_string(), "  ".to_string(), "LAB.local...".to_string()]);
    let s = toml_settings(&f).unwrap();
    assert_eq!(s.allowed_zones, vec!["example.com", "lab.local"]);
    let s = toml_settings(&toml_fields(Some("admin"), Some("password"))).unwrap();
    assert_eq!(s.allowed_zones, vec!["home.arpa"]);
    assert_eq!(s.timezone, "UTC");
    assert_eq!(s.observability_db_path, "observability.db");
    assert_eq!(s.cors_domains, vec!["mydns.local"]);
}

#[test]
fn toml_settings_reject_blank_credentials_and_unknown_timezones() {
    assert!(toml_settings(&toml_fields(Some("   "), Some("password"))).is_err());
    assert!(toml_settings(&toml_fields(Some("admin"), Some("   "))).is_err());
    assert!(toml_settings(&toml_fields(None, None)).is_err());
    let mut f = toml_fields(Some("admin"), Some("pw"));
    f.timezone = Some("Mars/Olympus".to_string());
    match toml_settings(&f) {
        Err(e) => {
            assert_eq!(e.message(), "Invalid system.timezone 'Mars/Olympus': failed to parse timezone");
            match e {
                ConfigError::InvalidTimezone(z, why) => {
                    assert_eq!(z, "Mars/Olympus");
                    assert_eq!(why, "failed to parse timezone");
                },
                _ => panic!("unknown timezone"),
            }
        },
        _ => panic!("unknown timezone"),
    }
    f.timezone = Some("Asia/Colombo".to_string());
    assert_eq!(toml_settings(&f).unwrap().timezone, "Asia/Colombo");
}

#[test]
fn toml_normalizes_and_defaults_allowed_zones() {
    // [auth] admin_username = "admin", admin_password = "password";
    // [zones] authoritative = ["Example.COM.", "  ", "LAB.local..."]
    let mut f = toml_fields(Some("admin"), Some("password"));
    f.authoritative = Some(vec!["Example.COM.".to_string(), "  ".to_string(), "LAB.local...".to_string()]);
    let cfg = toml_settings(&f).unwrap();
    assert_eq!(cfg.allowed_zones, vec!["example.com", "lab.local"]);
}

#[test]
fn toml_rejects_blank_credentials() {
    assert!(toml_settings(&toml_fields(Some("   "), Some("password"))).is_err());
    assert!(toml_settings(&toml_fields(Some("admin"), Some("   "))).is_err());
}

#[test]
fn tests_test_parse_toml_missing_credentials_fails() {
    // [server] dns_port = 53, and no [auth] section.
    let mut f = toml_fields(None, None);
    f.dns_port = Some(53);
    assert!(toml_settings(&f).is_err());
}

#[test]
fn mod_test_parse_toml_missing_credentials_fails() {
    // [server] dns_port = 53, and no [auth] section, read by the first generation.
    let mut f = toml_fields(None, None);
    f.dns_port = Some(53);
    assert!(mydns::config::toml_settings(&f).is_err());
}

#[test]
fn first_generation_toml_zones_are_untrimmed_and_have_no_default() {
    let mut f = toml_fields(Some("admin"), Some("password"));
    f.authoritative = Some(vec!["Example.COM.".to_string(), "".to_string(), " Lab.Local".to_string()]);
    let s = mydns::config::toml_settings(&f).unwrap();
    assert_eq!(s.allowed_zones, vec!["example.com", " lab.local"]);
    let s = mydns::config::toml_settings(&toml_fields(Some("admin"), Some("password"))).unwrap();
    assert!(s.allowed_zones.is_empty());
    // The timezone is not read, so an unknown one is no error.
    let mut f = toml_fields(Some("admin"), Some("password"));
    f.timezone = Some("Mars/Olympus".to_string());
    assert_eq!(mydns::config::toml_settings(&f).unwrap().timezone, "UTC");
    assert!(mydns::config::toml_settings(&toml_fields(Some("admin"), Some(" "))).is_err());
}

#[test]
fn first_generation_ini_zones_have_no_default() {
    let values = parse_ini("admin_username = admin\nadmin_password = pw\n").unwrap();
    let s = mydns::config::ini_settings(&values, all_addresses_ok()).unwrap();
    assert!(s.allowed_zones.is_empty());
    let values = parse_ini("admin_username = admin\nadmin_password = pw\nallowed_zones = Home.Lan., lab\n").unwrap();
    let s = mydns::config::ini_settings(&values, all_addresses_ok()).unwrap();
    assert_eq!(s.allowed_zones, vec!["home.lan", "lab"]);
    let s = ini_settings(&values, all_addresses_ok()).unwrap();
    assert_eq!(s.allowed_zones, vec!["home.lan", "lab"]);
}

#[test]
fn toml_minimal_defaults_include_addresses() {
    // [auth] admin_username = "admin", admin_password = "password"
    let s = toml_settings(&toml_fields(Some("admin"), Some("password"))).unwrap();
    assert_eq!(s.bind_host, IpValue::V4(0x7f00_0001));
    assert_eq!(s.http_host, IpValue::V4(0x7f00_0001));
    assert_eq!(s.cloudflare_dns, SocketValue { ip: IpValue::V4(0x0101_0101), port: 53 });
    assert_eq!(s.router_dns, None);
    assert!(s.root_hints.is_empty());
    assert_eq!(s.dns_port, 53);
    assert_eq!(s.http_port, 8080);
    assert_eq!(s.db_path, "mydns.db");
    assert_eq!(s.resolver_mode, ResolverMode::Forwarding);
    assert_eq!(s.resolver_priority, ResolverPriority::CloudflareFirst);
    assert_eq!(s.allowed_zones, vec!["home.arpa"]);
    let mut f = toml_fields(Some("admin"), Some("password"));
    let hint = SocketValue { ip: IpValue::V4(0xc629_0004), port: 53 };
    f.root_hints = Some(vec![hint]);
    f.http_host = Some(IpValue::V6(1));
    let s = toml_settings(&f).unwrap();
    assert_eq!(s.root_hints, vec![hint]);
    assert_eq!(s.http_host, IpValue::V6(1));
}
