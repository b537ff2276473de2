//! DNS resolution: the zone, record and blocklist indexes, domain names in
//! wire form, and the decisions of the resolver.
pub mod blocklist;
pub mod cache_walk;
pub mod iterative;
pub mod names;
pub mod record_index;
pub mod records;
pub mod resolution;
pub mod upstream;
pub mod zone_trie;
