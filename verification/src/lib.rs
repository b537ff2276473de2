//! MyDNS: the data structures and decision logic of a local DNS server
//! (authoritative zones, record index, domain blocklist, configuration).
pub mod cache;
pub mod config;
pub mod db;
pub mod metrics;
pub mod dns;
pub mod mydns;
pub mod names;
