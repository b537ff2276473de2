use mydns::mydns::dns::zone_trie::ZoneTrie;

fn trie(zones: &[&str]) -> ZoneTrie {
    ZoneTrie::from_zones(&zones.iter().map(|s| s.to_string()).collect::<Vec<_>>())
}

#[test]
fn finds_exact_zone() {
    let trie = trie(&["example.com"]);
    assert_eq!(trie.find_zone("example.com"), Some("example.com"));
}

#[test]
fn finds_subdomain_zone() {
    let trie = trie(&["example.com"]);
    assert_eq!(trie.find_zone("api.example.com"), Some("example.com"));
}

#[test]
fn finds_deep_subdomain_zone() {
    let trie = trie(&["example.com"]);
    assert_eq!(trie.find_zone("a.b.c.example.com"), Some("example.com"));
}

#[test]
fn chooses_longest_matching_zone() {
    let trie = trie(&["example.com", "sub.example.com"]);
    assert_eq!(trie.find_zone("api.sub.example.com"), Some("sub.example.com"));
    assert_eq!(trie.find_zone("www.example.com"), Some("example.com"));
}

#[test]
fn enforces_label_boundaries() {
    let trie = trie(&["example.com"]);
    assert_eq!(trie.find_zone("notexample.com"), None);
    assert_eq!(trie.find_zone("example.com.evil"), None);
}

#[test]
fn unrelated_name_returns_none() {
    let trie = trie(&["example.com"]);
    assert_eq!(trie.find_zone("other.org"), None);
}

#[test]
fn normalizes_case_and_trailing_dot() {
    let trie = trie(&["Example.COM."]);
    assert_eq!(trie.find_zone("WWW.Example.Com."), Some("Example.COM."));
}

#[test]
fn supports_multiple_unrelated_zones() {
    let trie = trie(&["home.local", "lab.local", "example.com"]);
    assert_eq!(trie.find_zone("server.home.local"), Some("home.local"));
    assert_eq!(trie.find_zone("node.lab.local"), Some("lab.local"));
    assert_eq!(trie.find_zone("www.example.com"), Some("example.com"));
}

#[test]
fn zone_trie_empty_trie_returns_none() {
    let trie = trie(&[]);
    assert_eq!(trie.find_zone("anything.com"), None);
}

#[test]
fn empty_trie_returns_none() {
    let t = ZoneTrie::from_zones(&Vec::<String>::new());
    assert_eq!(t.find_zone("anything.com"), None);
}

#[test]
fn root_zone_matches_every_name() {
    let trie = trie(&["."]);
    assert!(trie.is_root_authoritative());
    assert_eq!(trie.find_zone("google.com"), Some("."));
    assert_eq!(trie.find_zone("anything.example.org"), Some("."));
}

#[test]
fn root_zone_takes_precedence_over_specific_zones() {
    let trie = trie(&["home.local", "."]);
    assert_eq!(trie.find_zone("home.local"), Some("."));
    assert_eq!(trie.find_zone("google.com"), Some("."));
}

#[test]
fn exact_zone_match() {
    let t = trie(&["example.com"]);
    assert_eq!(t.find_zone("example.com"), Some("example.com"));
}

#[test]
fn subdomain_match() {
    let t = trie(&["example.com"]);
    assert_eq!(t.find_zone("sub.example.com"), Some("example.com"));
}

#[test]
fn deep_subdomain_match() {
    let t = trie(&["example.com"]);
    assert_eq!(t.find_zone("a.b.c.example.com"), Some("example.com"));
}

#[test]
fn no_partial_label_match() {
    let t = trie(&["example.com"]);
    assert_eq!(t.find_zone("notexample.com"), None);
}

#[test]
fn longest_ancestor_wins() {
    let t = trie(&["example.com", "sub.example.com"]);
    assert_eq!(t.find_zone("api.sub.example.com"), Some("sub.example.com"));
    assert_eq!(t.find_zone("www.example.com"), Some("example.com"));
}

#[test]
fn unrelated_zone_returns_none() {
    let t = trie(&["example.com"]);
    assert_eq!(t.find_zone("other.org"), None);
}

#[test]
fn trailing_dot_normalised_on_query() {
    let t = trie(&["example.com"]);
    assert_eq!(t.find_zone("sub.example.com."), Some("example.com"));
}

#[test]
fn multiple_unrelated_zones() {
    let t = trie(&["home.local", "lab.local", "example.com"]);
    assert_eq!(t.find_zone("server.home.local"), Some("home.local"));
    assert_eq!(t.find_zone("node.lab.local"), Some("lab.local"));
    assert_eq!(t.find_zone("www.example.com"), Some("example.com"));
    assert_eq!(t.find_zone("google.com"), None);
}

#[test]
fn root_zone_is_authoritative_for_everything() {
    let t = trie(&["."]);
    assert_eq!(t.find_zone("google.com"), Some("."));
    assert_eq!(t.find_zone("anything.example.org"), Some("."));
    assert_eq!(t.find_zone("home.local"), Some("."));
}

#[test]
fn root_zone_flag_set_correctly() {
    let empty = trie(&[]);
    assert!(!empty.is_root_authoritative());
    let root = trie(&["."]);
    assert!(root.is_root_authoritative());
}

#[test]
fn root_zone_alongside_other_zones() {
    let t = trie(&["home.local", "."]);
    assert_eq!(t.find_zone("home.local"), Some("."));
    assert_eq!(t.find_zone("google.com"), Some("."));
}

#[test]
fn empty_trie_root_not_set() {
    let t = trie(&[]);
    assert!(!t.is_root_authoritative());
    assert_eq!(t.find_zone("anything.com"), None);
}

#[test]
fn deepest_configured_suffix_wins_for_every_depth() {
    let t = trie(&["com", "example.com", "a.b.example.com"]);
    assert_eq!(t.find_zone("x.a.b.example.com"), Some("a.b.example.com"));
    assert_eq!(t.find_zone("b.example.com"), Some("example.com"));
    assert_eq!(t.find_zone("other.com"), Some("com"));
    assert_eq!(t.find_zone("example.org"), None);
}
