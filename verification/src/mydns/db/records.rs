//! DNS records as the database stores them.
use vstd::prelude::*;

verus! {

/// A DNS record as stored in SQLite.
#[derive(Debug)]
pub struct DnsRecord {
    pub id: i64,
    pub name: String,
    pub record_type: String,
    pub value: String,
    pub ttl: i64,
    /// MX priority (only meaningful for MX records).
    pub priority: Option<i64>,
    pub created_at: String,
    pub updated_at: String,
    /// When true the record is ephemeral and will be deleted on the next restart.
    pub is_dev: bool,
}

impl Clone for DnsRecord {
    fn clone(&self) -> (r: Self)
        ensures
            r == *self,
    {
        DnsRecord {
            id: self.id,
            name: self.name.clone(),
            record_type: self.record_type.clone(),
            value: self.value.clone(),
            ttl: self.ttl,
            priority: self.priority,
            created_at: self.created_at.clone(),
            updated_at: self.updated_at.clone(),
            is_dev: self.is_dev,
        }
    }
}

/// Appends copies of `src` to `dst`.
pub fn extend_cloned(dst: &mut Vec<DnsRecord>, src: &[DnsRecord])
    ensures
        final(dst)@ == old(dst)@ + src@,
{
    let ghost start = dst@;
    for i in 0..src.len()
        invariant
            dst@ == start + src@.take(i as int),
    {
        let r = src[i].clone();
        dst.push(r);
        assert(src@.take(i + 1) == src@.take(i as int).push(src@[i as int]));
    }
    assert(src@.take(src@.len() as int) == src@);
}

/// The records of `src` whose id is not `id`, in order.
pub open spec fn drop_id(s: Seq<DnsRecord>, id: i64) -> Seq<DnsRecord>
    decreases s.len(),
{
    if s.len() == 0 {
        Seq::empty()
    } else if s.last().id == id {
        drop_id(s.drop_last(), id)
    } else {
        drop_id(s.drop_last(), id).push(s.last())
    }
}

/// Copies of the records of `src` whose id is not `id`, in order.
pub fn without_id(src: &[DnsRecord], id: i64) -> (r: Vec<DnsRecord>)
    ensures
        r@ == drop_id(src@, id),
{
    let mut r: Vec<DnsRecord> = Vec::new();
    for i in 0..src.len()
        invariant
            r@ == drop_id(src@.take(i as int), id),
    {
        assert(src@.take(i + 1).drop_last() == src@.take(i as int));
        if src[i].id != id {
            let c = src[i].clone();
            r.push(c);
        }
    }
    assert(src@.take(src@.len() as int) == src@);
    r
}

/// Payload for creating a new DNS record.
#[derive(Debug)]
pub struct CreateRecord {
    pub name: String,
    pub record_type: String,
    pub value: String,
    pub ttl: u32,
    pub priority: Option<u16>,
    /// When true the record is treated as an ephemeral dev record and will be
    /// deleted on the next server restart. Dev records bypass authoritative-zone
    /// validation, allowing testing against arbitrary domains (e.g. google.com).
    pub is_dev: bool,
}

/// Payload for updating an existing DNS record.
#[derive(Debug)]
pub struct UpdateRecord {
    pub name: Option<String>,
    pub record_type: Option<String>,
    pub value: Option<String>,
    pub ttl: Option<u32>,
    pub priority: Option<u16>,
}

} // verus!
