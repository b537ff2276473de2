//! Persistent DNS cache rows.
use vstd::prelude::*;

verus! {

/// A persistent DNS cache row as stored in SQLite.
#[derive(Debug)]
pub struct CacheRow {
    pub id: i64,
    pub name: String,
    pub record_type: String,
    pub value: String,
    pub ttl: i64,
    pub expires_at: i64,
    pub priority: Option<i64>,
}

} // verus!
