//! The cache interface of the first server generation: the same TTL cache
//! without the authoritative flag, and camel-case method names.
use vstd::prelude::*;
use std::time::Duration;
use crate::metrics::next_count;
use crate::names::lowercase;
pub use crate::mydns::cache::{
    found_at, kept, live_entry, live_slots, lists_at, new_slot, stored, CacheEntry, CacheResult, SlotView, CACHE_CAPACITY,
};

verus! {

/// A lookup's finding without the authoritative flag.
pub open spec fn without_flag<R>(f: Option<(CacheResult, bool, Seq<R>)>) -> Option<(CacheResult, Seq<R>)> {
    match f {
        Some(t) => Some((t.0, t.2)),
        None => None,
    }
}

/// A lookup's result as a mathematical value.
pub open spec fn found_view<R>(r: Option<(CacheResult, &Vec<R>)>) -> Option<(CacheResult, Seq<R>)> {
    match r {
        Some(t) => Some((t.0, t.1@)),
        None => None,
    }
}

/// Thread-shared TTL-aware in-memory DNS cache.
pub struct DnsCache<R> {
    inner: crate::mydns::cache::DnsCache<R>,
}

impl<R> View for DnsCache<R> {
    type V = Seq<SlotView<R>>;

    closed spec fn view(&self) -> Seq<SlotView<R>> {
        self.inner@
    }
}

#[allow(non_snake_case)]
impl<R> CacheEntry<R> {
    /// Whether the entry is stale by the clock's current time.
    pub fn isExpired(&self) -> (b: bool)
        ensures
            self.expires_at == 0 ==> b,
    {
        self.is_expired()
    }
}

#[allow(non_snake_case)]
impl<R> DnsCache<R> {
    /// No key twice, at most `CACHE_CAPACITY` entries.
    pub closed spec fn wf(&self) -> bool {
        self.inner.wf()
    }

    /// An empty cache.
    pub fn new() -> (c: Self)
        ensures
            c.wf(),
            c@.len() == 0,
    {
        DnsCache { inner: crate::mydns::cache::DnsCache::new() }
    }

    /// The cached result for the key if present and live at `now`.
    pub fn get_at(&self, name: &str, rtype: u16, now: u64) -> (r: Option<(CacheResult, &Vec<R>)>)
        requires
            self.wf(),
        ensures
            match live_entry(self@, lowercase(name@), rtype, now) {
                Some(e) => r matches Some(t) && t.0 == e.result && t.1@ == e.records,
                None => r is None,
            },
    {
        match self.inner.get_at(name, rtype, now) {
            Some((result, _, records)) => Some((result, records)),
            None => None,
        }
    }

    /// The cached result for the key if present and not expired.
    pub fn get(&self, name: &str, rtype: u16) -> (r: Option<(CacheResult, &Vec<R>)>)
        requires
            self.wf(),
        ensures
            exists|now: u64| without_flag(#[trigger] found_at(self@, lowercase(name@), rtype, now)) == found_view(r),
    {
        let r = self.inner.get(name, rtype);
        let ghost w = choose|now: u64|
            #[trigger] found_at(self.inner@, lowercase(name@), rtype, now) == crate::mydns::cache::found_view(r);
        let out = match r {
            Some((result, _, records)) => Some((result, records)),
            None => None,
        };
        assert(without_flag(found_at(self@, lowercase(name@), rtype, w)) == found_view(out));
        out
    }

    /// Inserts a positive cache entry with the given TTL.
    pub fn insert(&mut self, name: &str, rtype: u16, records: Vec<R>, ttl: Duration)
        requires
            old(self).wf(),
        ensures
            final(self).wf(),
            exists|expires_at: u64|
                final(self)@ == stored(
                    old(self)@,
                    #[trigger] new_slot(lowercase(name@), rtype, records@, CacheResult::Positive, false, expires_at),
                ),
    {
        self.inner.insert(name, rtype, records, ttl, false);
    }

    /// Inserts a negative cache entry with the given TTL.
    pub fn insertNegative(&mut self, name: &str, rtype: u16, ttl: Duration)
        requires
            old(self).wf(),
        ensures
            final(self).wf(),
            exists|expires_at: u64|
                final(self)@ == stored(
                    old(self)@,
                    #[trigger] new_slot(lowercase(name@), rtype, Seq::empty(), CacheResult::Negative, false, expires_at),
                ),
    {
        self.inner.insert_negative(name, rtype, ttl);
    }

    /// Removes a specific entry.
    pub fn remove(&mut self, name: &str, rtype: u16)
        requires
            old(self).wf(),
        ensures
            final(self).wf(),
            final(self)@ == kept(
                old(self)@,
                |e: SlotView<R>| !(e.name == lowercase(name@) && e.rtype == rtype),
            ),
    {
        self.inner.remove(name, rtype);
    }

    /// Removes all entries for a DNS name.
    pub fn removeName(&mut self, name: &str)
        requires
            old(self).wf(),
        ensures
            final(self).wf(),
            final(self)@ == kept(old(self)@, |e: SlotView<R>| e.name != lowercase(name@)),
    {
        self.inner.remove_name(name);
    }

    /// Removes all entries that have passed their expiry time; returns how many.
    pub fn prune(&mut self) -> (n: usize)
        requires
            old(self).wf(),
        ensures
            final(self).wf(),
            exists|now: u64| final(self)@ == #[trigger] live_slots(old(self)@, now),
            n == old(self)@.len() - final(self)@.len(),
    {
        let n = self.inner.prune();
        proof {
            let w = choose|now: u64| self.inner@ == #[trigger] live_slots(old(self).inner@, now);
            assert(final(self)@ == live_slots(old(self)@, w));
        }
        n
    }

    /// Total number of entries currently in the cache.
    pub fn len(&self) -> (n: usize)
        ensures
            n == self@.len(),
    {
        self.inner.len()
    }

    /// Returns true if the cache contains no entries.
    pub fn is_empty(&self) -> (b: bool)
        ensures
            b == (self@.len() == 0),
    {
        self.inner.is_empty()
    }

    /// Clears the entire cache.
    pub fn clear(&mut self)
        ensures
            final(self).wf(),
            final(self)@.len() == 0,
    {
        self.inner.clear();
    }

    /// The live entries: name, record type, seconds left and records.
    pub fn listAll(&self) -> (r: Vec<(String, u16, u32, &Vec<R>)>)
        ensures
            exists|now: u64| #[trigger] lists_at(self@, now, r@),
    {
        let r = self.inner.list_all();
        let ghost w = choose|now: u64| #[trigger] lists_at(self.inner@, now, r@);
        assert(lists_at(self@, w, r@));
        r
    }
}

/// Cache hit and miss counters; each count wraps to 0 after `u64::MAX`.
pub struct CacheStats {
    inner: crate::mydns::cache::CacheStats,
}

#[allow(non_snake_case)]
impl CacheStats {
    /// The number of hits counted.
    pub closed spec fn hits(&self) -> u64 {
        self.inner.hits()
    }

    /// The number of misses counted.
    pub closed spec fn misses(&self) -> u64 {
        self.inner.misses()
    }

    /// Counters at zero.
    pub fn new() -> (s: CacheStats)
        ensures
            s.hits() == 0,
            s.misses() == 0,
    {
        CacheStats::default()
    }

    /// Counters at zero.
    pub fn default() -> (s: CacheStats)
        ensures
            s.hits() == 0,
            s.misses() == 0,
    {
        CacheStats { inner: crate::mydns::cache::CacheStats::default() }
    }

    /// Counts a cache hit.
    pub fn recordHit(&mut self)
        ensures
            final(self).hits() == next_count(old(self).hits()),
            final(self).misses() == old(self).misses(),
    {
        self.inner.record_hit();
    }

    /// Counts a cache miss.
    pub fn recordMiss(&mut self)
        ensures
            final(self).hits() == old(self).hits(),
            final(self).misses() == next_count(old(self).misses()),
    {
        self.inner.record_miss();
    }

    /// The current (hits, misses).
    pub fn snapshot(&self) -> (r: (u64, u64))
        ensures
            r == (self.hits(), self.misses()),
    {
        self.inner.snapshot()
    }
}

} // verus!
