//! The in-memory DNS answer cache: entries keyed by lowercased name and
//! record type, each with an absolute expiry time, at most `CACHE_CAPACITY`
//! of them; and the hit/miss counters shown on the dashboard.
use vstd::prelude::*;
use std::time::Duration;
use crate::metrics::next_count;
use crate::names::{
    chars_of, is_suffix_of, labels_view, lowercase, name_labels, normalized_labels, same_text,
    to_lowercase, ends_with_labels,
};

verus! {

broadcast use vstd::string::group_string_axioms;

/// The most entries the cache holds.
pub const CACHE_CAPACITY: usize = 5000;

/// The result represented by a cache entry.
#[derive(Debug, Clone, Copy, PartialEq, Eq, Structural)]
pub enum CacheResult {
    /// A successful DNS response containing records.
    Positive,
    /// A negative DNS response (NXDOMAIN/NODATA) with no answer records.
    Negative,
}

/// A single cached DNS response.
pub struct CacheEntry<R> {
    /// The answer records to return; empty when `result` is `Negative`.
    pub records: Vec<R>,
    /// Whether this entry represents a negative DNS result.
    pub result: CacheResult,
    /// Whether the answer came from a zone this server is authoritative for.
    pub authoritative: bool,
    /// Milliseconds on the cache clock after which the entry is stale.
    pub expires_at: u64,
}

/// What a slot of the cache holds, as a mathematical value.
pub struct SlotView<R> {
    pub name: Seq<char>,
    pub rtype: u16,
    pub records: Seq<R>,
    pub result: CacheResult,
    pub authoritative: bool,
    pub expires_at: u64,
}

/// A slot: the key (lowercased name, record type) and its entry.
pub struct Slot<R> {
    name: String,
    rtype: u16,
    entry: CacheEntry<R>,
}

impl<R> Slot<R> {
    pub closed spec fn view_slot(self) -> SlotView<R> {
        SlotView {
            name: self.name@,
            rtype: self.rtype,
            records: self.entry.records@,
            result: self.entry.result,
            authoritative: self.entry.authoritative,
            expires_at: self.entry.expires_at,
        }
    }
}

/// TTL-aware in-memory DNS cache over answer records of type `R`.
pub struct DnsCache<R> {
    slots: Vec<Slot<R>>,
}

/// The slots of a cache as mathematical values.
pub open spec fn slots_view<R>(s: Seq<Slot<R>>) -> Seq<SlotView<R>> {
    s.map_values(|x: Slot<R>| x.view_slot())
}

impl<R> View for DnsCache<R> {
    type V = Seq<SlotView<R>>;

    closed spec fn view(&self) -> Seq<SlotView<R>> {
        slots_view(self.slots@)
    }
}

/// No key occurs twice and the capacity is respected.
pub open spec fn cache_wf<R>(s: Seq<SlotView<R>>) -> bool {
    &&& s.len() <= CACHE_CAPACITY
    &&& forall|i: int, j: int|
        0 <= i < j < s.len() ==> !(#[trigger] s[i].name == #[trigger] s[j].name && s[i].rtype == s[j].rtype)
}

/// The position of the slot for (`name`, `rtype`), if any.
pub open spec fn slot_index<R>(s: Seq<SlotView<R>>, name: Seq<char>, rtype: u16) -> Option<int> {
    if exists|i: int| 0 <= i < s.len() && s[i].name == name && s[i].rtype == rtype {
        Some(choose|i: int| 0 <= i < s.len() && s[i].name == name && s[i].rtype == rtype)
    } else {
        None
    }
}

/// The entry is stale at time `now`.
pub open spec fn is_expired<R>(e: SlotView<R>, now: u64) -> bool {
    now >= e.expires_at
}

/// The live entry for (`name`, `rtype`) at time `now`, if any.
pub open spec fn live_entry<R>(s: Seq<SlotView<R>>, name: Seq<char>, rtype: u16, now: u64) -> Option<SlotView<R>> {
    match slot_index(s, name, rtype) {
        Some(i) => if is_expired(s[i], now) {
            None
        } else {
            Some(s[i])
        },
        None => None,
    }
}

/// What a lookup of (`name`, `rtype`) finds at `now`: the live entry's
/// result, authoritative flag and records.
pub open spec fn found_at<R>(s: Seq<SlotView<R>>, name: Seq<char>, rtype: u16, now: u64) -> Option<(CacheResult, bool, Seq<R>)> {
    match live_entry(s, name, rtype, now) {
        Some(e) => Some((e.result, e.authoritative, e.records)),
        None => None,
    }
}

/// A lookup's result as a mathematical value.
pub open spec fn found_view<R>(r: Option<(CacheResult, bool, &Vec<R>)>) -> Option<(CacheResult, bool, Seq<R>)> {
    match r {
        Some(t) => Some((t.0, t.1, t.2@)),
        None => None,
    }
}

/// `r` lists the live slots of `s` at `now`, in order: name, record type,
/// whole seconds left (as `u32`, wrapping) and records.
pub open spec fn lists_at<R>(s: Seq<SlotView<R>>, now: u64, r: Seq<(String, u16, u32, &Vec<R>)>) -> bool {
    &&& r.len() == live_slots(s, now).len()
    &&& forall|i: int| 0 <= i < r.len() ==> {
        let e = #[trigger] live_slots(s, now)[i];
        &&& r[i].0@ == e.name
        &&& r[i].1 == e.rtype
        &&& r[i].2 == (((e.expires_at - now) / 1000) as u32)
        &&& r[i].3@ == e.records
    }
}

/// A slot value.
pub open spec fn new_slot<R>(
    name: Seq<char>,
    rtype: u16,
    records: Seq<R>,
    result: CacheResult,
    authoritative: bool,
    expires_at: u64,
) -> SlotView<R> {
    SlotView { name, rtype, records, result, authoritative, expires_at }
}

/// The slots after one is stored for its key: when the cache is full its
/// oldest slot is dropped first, then the key's slot is replaced in place or
/// appended.
pub open spec fn stored<R>(s: Seq<SlotView<R>>, e: SlotView<R>) -> Seq<SlotView<R>> {
    let base = if s.len() >= CACHE_CAPACITY {
        s.drop_first()
    } else {
        s
    };
    match slot_index(base, e.name, e.rtype) {
        Some(i) => base.update(i, e),
        None => base.push(e),
    }
}

/// The slots of `s` that satisfy `keep`, in order.
pub open spec fn kept<R>(s: Seq<SlotView<R>>, keep: spec_fn(SlotView<R>) -> bool) -> Seq<SlotView<R>>
    decreases s.len(),
{
    if s.len() == 0 {
        Seq::empty()
    } else if keep(s.last()) {
        kept(s.drop_last(), keep).push(s.last())
    } else {
        kept(s.drop_last(), keep)
    }
}

/// The slots of `s` that are live at `now`, in order.
pub open spec fn live_slots<R>(s: Seq<SlotView<R>>, now: u64) -> Seq<SlotView<R>> {
    kept(s, |e: SlotView<R>| !is_expired(e, now))
}

/// `now + ttl`, or the largest time when that overflows.
pub open spec fn expiry(now: u64, ttl_ms: u64) -> u64 {
    if now + ttl_ms > u64::MAX {
        u64::MAX
    } else {
        (now + ttl_ms) as u64
    }
}

/// The system clock (`std::time::SystemTime`), declared so that its values
/// can be carried through verified code; nothing inside one is visible.
#[verifier::external_type_specification]
#[verifier::external_body]
pub struct ExSystemTime(std::time::SystemTime);

/// Wraps `SystemTime::now`: the system clock's current time. It depends on
/// the moment of the call, so nothing is stated of it.
#[verifier::external_body]
fn system_now() -> (t: std::time::SystemTime) {
    std::time::SystemTime::now()
}

/// Wraps `SystemTime::duration_since` with `UNIX_EPOCH`: the time elapsed
/// since the epoch, `None` when `t` lies before it. `SystemTime` is opaque
/// here, so nothing is stated of the value.
#[verifier::external_body]
fn since_epoch(t: std::time::SystemTime) -> (d: Option<Duration>) {
    t.duration_since(std::time::UNIX_EPOCH).ok()
}

/// Wraps `Duration::as_millis`: the whole milliseconds of `d`. `Duration` is
/// opaque here, so nothing is stated of the value.
#[verifier::external_body]
fn duration_millis(d: Duration) -> (ms: u128) {
    d.as_millis()
}

/// `ms`, or the largest `u64` when it does not fit.
fn saturate_millis(ms: u128) -> (r: u64)
    ensures
        r == if ms > u64::MAX { u64::MAX } else { ms as u64 },
{
    if ms > 0xffff_ffff_ffff_ffffu128 {
        0xffff_ffff_ffff_ffffu64
    } else {
        ms as u64
    }
}

/// Reads the cache clock: milliseconds since the Unix epoch by the system
/// clock, saturated to `u64`, and 0 when the clock is before the epoch.
pub(crate) fn clock_millis() -> (t: u64) {
    match since_epoch(system_now()) {
        Some(d) => saturate_millis(duration_millis(d)),
        None => 0,
    }
}

proof fn lemma_kept_len<R>(s: Seq<SlotView<R>>, keep: spec_fn(SlotView<R>) -> bool)
    ensures
        kept(s, keep).len() <= s.len(),
        forall|i: int| 0 <= i < kept(s, keep).len() ==> s.contains(#[trigger] kept(s, keep)[i]),
        forall|i: int| 0 <= i < kept(s, keep).len() ==> keep(#[trigger] kept(s, keep)[i]),
    decreases s.len(),
{
    if s.len() > 0 {
        lemma_kept_len(s.drop_last(), keep);
        assert forall|i: int| 0 <= i < kept(s, keep).len() implies s.contains(#[trigger] kept(s, keep)[i]) by {
            if i < kept(s.drop_last(), keep).len() {
                let x = kept(s.drop_last(), keep)[i];
                assert(s.drop_last().contains(x));
                let j = choose|j: int| 0 <= j < s.drop_last().len() && s.drop_last()[j] == x;
                assert(s[j] == x);
            } else {
                assert(s[s.len() - 1] == s.last());
            }
        }
    }
}

/// Keeping a subsequence of a well-formed cache keeps it well-formed.
proof fn lemma_kept_wf<R>(s: Seq<SlotView<R>>, keep: spec_fn(SlotView<R>) -> bool)
    requires
        cache_wf(s),
    ensures
        cache_wf(kept(s, keep)),
    decreases s.len(),
{
    if s.len() > 0 {
        let p = s.drop_last();
        assert(cache_wf(p));
        lemma_kept_wf(p, keep);
        lemma_kept_len(p, keep);
        lemma_kept_len(s, keep);
        if keep(s.last()) {
            let k = kept(s, keep);
            assert forall|i: int, j: int| 0 <= i < j < k.len() implies !(#[trigger] k[i].name == #[trigger] k[j].name
                && k[i].rtype == k[j].rtype) by {
                if j == k.len() - 1 {
                    let x = kept(p, keep)[i];
                    assert(p.contains(x));
                    let m = choose|m: int| 0 <= m < p.len() && p[m] == x;
                    assert(s[m] == x);
                    assert(s[s.len() - 1] == s.last());
                } else {
                    assert(k[i] == kept(p, keep)[i]);
                    assert(k[j] == kept(p, keep)[j]);
                }
            }
        }
    }
}

impl<R> CacheEntry<R> {
    /// The entry is stale at time `now`.
    pub fn is_expired_at(&self, now: u64) -> (b: bool)
        ensures
            b == (now >= self.expires_at),
    {
        now >= self.expires_at
    }

    /// Whether the entry is stale by the clock's current time. The time read
    /// is not known here, so only what holds of every reading is stated.
    pub fn is_expired(&self) -> (b: bool)
        ensures
            self.expires_at == 0 ==> b,
    {
        self.is_expired_at(clock_millis())
    }
}

impl<R> DnsCache<R> {
    /// The cache's slots are well formed: no key twice, at most
    /// `CACHE_CAPACITY` slots.
    pub open spec fn wf(&self) -> bool {
        cache_wf(self@)
    }

    /// An empty cache.
    pub fn new() -> (c: Self)
        ensures
            c.wf(),
            c@.len() == 0,
    {
        let c = DnsCache { slots: Vec::new() };
        assert(c@ =~= Seq::<SlotView<R>>::empty());
        c
    }

    /// An empty cache.
    pub fn default() -> (c: Self)
        ensures
            c.wf(),
            c@.len() == 0,
    {
        DnsCache::new()
    }

    /// The position of the slot for `key`, which is lowercase.
    fn find(&self, name: &str, rtype: u16) -> (r: Option<usize>)
        requires
            self.wf(),
        ensures
            match r {
                Some(i) => slot_index(self@, name@, rtype) == Some(i as int),
                None => slot_index(self@, name@, rtype) is None,
            },
    {
        let mut i: usize = 0;
        while i < self.slots.len()
            invariant
                i <= self.slots.len(),
                self.wf(),
                forall|t: int| 0 <= t < i ==> !(#[trigger] self@[t].name == name@ && self@[t].rtype == rtype),
            decreases self.slots.len() - i,
        {
            assert(self@[i as int] == self.slots@[i as int].view_slot());
            if self.slots[i].rtype == rtype && same_text(self.slots[i].name.as_str(), name) {
                let ghost w = choose|k: int| 0 <= k < self@.len() && self@[k].name == name@ && self@[k].rtype == rtype;
                assert(w == i) by {
                    if w != i {
                        if w < i {
                            assert(!(self@[w].name == name@ && self@[w].rtype == rtype));
                        } else {
                            assert(!(self@[i as int].name == self@[w].name && self@[i as int].rtype == self@[w].rtype));
                        }
                    }
                }
                return Some(i);
            }
            i = i + 1;
        }
        None
    }

    /// The live entry for (`name`, `rtype`) at time `now`; the name is
    /// matched case-insensitively.
    pub fn get_at(&self, name: &str, rtype: u16, now: u64) -> (r: Option<(CacheResult, bool, &Vec<R>)>)
        requires
            self.wf(),
        ensures
            match live_entry(self@, lowercase(name@), rtype, now) {
                Some(e) => r matches Some(t) && t.0 == e.result && t.1 == e.authoritative && t.2@ == e.records,
                None => r is None,
            },
    {
        let key = to_lowercase(name);
        match self.find(key.as_str(), rtype) {
            Some(i) => {
                assert(self@[i as int] == self.slots@[i as int].view_slot());
                let e = &self.slots[i].entry;
                if e.is_expired_at(now) {
                    None
                } else {
                    Some((e.result, e.authoritative, &e.records))
                }
            },
            None => None,
        }
    }

    /// The live entry for (`name`, `rtype`) now, by the cache clock.
    pub fn get(&self, name: &str, rtype: u16) -> (r: Option<(CacheResult, bool, &Vec<R>)>)
        requires
            self.wf(),
        ensures
            exists|now: u64| #[trigger] found_at(self@, lowercase(name@), rtype, now) == found_view(r),
    {
        let now = clock_millis();
        let r = self.get_at(name, rtype, now);
        assert(found_at(self@, lowercase(name@), rtype, now) == found_view(r));
        r
    }

    /// Stores `records` for (`name`, `rtype`) until `expires_at`: the
    /// lowercased name is the key; a full cache first drops its oldest slot.
    pub fn store(
        &mut self,
        name: &str,
        rtype: u16,
        result: CacheResult,
        records: Vec<R>,
        authoritative: bool,
        expires_at: u64,
    )
        requires
            old(self).wf(),
        ensures
            final(self).wf(),
            final(self)@ == stored(
                old(self)@,
                SlotView {
                    name: lowercase(name@),
                    rtype,
                    records: records@,
                    result,
                    authoritative,
                    expires_at,
                },
            ),
    {
        let key = to_lowercase(name);
        let ghost e = SlotView {
            name: key@,
            rtype,
            records: records@,
            result,
            authoritative,
            expires_at,
        };
        if self.slots.len() >= CACHE_CAPACITY {
            let ghost before = self@;
            self.slots.remove(0);
            assert(self@ =~= before.drop_first());
            assert(cache_wf(self@)) by {
                assert forall|i: int, j: int| 0 <= i < j < self@.len() implies !(#[trigger] self@[i].name
                    == #[trigger] self@[j].name && self@[i].rtype == self@[j].rtype) by {
                    assert(self@[i] == before[i + 1]);
                    assert(self@[j] == before[j + 1]);
                }
            }
        }
        let ghost base = self@;
        let slot = Slot {
            name: key,
            rtype,
            entry: CacheEntry { records, result, authoritative, expires_at },
        };
        assert(slot.view_slot() == e);
        match self.find(slot.name.as_str(), rtype) {
            Some(i) => {
                self.slots.set(i, slot);
                assert(self@ =~= base.update(i as int, e));
                assert forall|a: int, b: int| 0 <= a < b < self@.len() implies !(#[trigger] self@[a].name
                    == #[trigger] self@[b].name && self@[a].rtype == self@[b].rtype) by {
                    if a == i {
                        assert(!(base[i as int].name == base[b].name && base[i as int].rtype == base[b].rtype));
                    } else if b == i {
                        assert(!(base[a].name == base[i as int].name && base[a].rtype == base[i as int].rtype));
                    }
                }
            },
            None => {
                self.slots.push(slot);
                assert(self@ =~= base.push(e));
                assert forall|a: int, b: int| 0 <= a < b < self@.len() implies !(#[trigger] self@[a].name
                    == #[trigger] self@[b].name && self@[a].rtype == self@[b].rtype) by {
                    if b == base.len() {
                        assert(!(base[a].name == e.name && base[a].rtype == e.rtype));
                    }
                }
            },
        }
    }

    /// Inserts a positive entry for (`name`, `rtype`) that lives for `ttl_ms`
    /// milliseconds from `now`.
    pub fn insert_at(
        &mut self,
        name: &str,
        rtype: u16,
        records: Vec<R>,
        ttl_ms: u64,
        authoritative: bool,
        now: u64,
    )
        requires
            old(self).wf(),
        ensures
            final(self).wf(),
            final(self)@ == stored(
                old(self)@,
                SlotView {
                    name: lowercase(name@),
                    rtype,
                    records: records@,
                    result: CacheResult::Positive,
                    authoritative,
                    expires_at: expiry(now, ttl_ms),
                },
            ),
    {
        let expires_at = now.saturating_add(ttl_ms);
        self.store(name, rtype, CacheResult::Positive, records, authoritative, expires_at);
    }

    /// Inserts a negative entry for (`name`, `rtype`) that lives for `ttl_ms`
    /// milliseconds from `now`.
    pub fn insert_negative_at(&mut self, name: &str, rtype: u16, ttl_ms: u64, now: u64)
        requires
            old(self).wf(),
        ensures
            final(self).wf(),
            final(self)@ == stored(
                old(self)@,
                SlotView {
                    name: lowercase(name@),
                    rtype,
                    records: Seq::empty(),
                    result: CacheResult::Negative,
                    authoritative: false,
                    expires_at: expiry(now, ttl_ms),
                },
            ),
    {
        let expires_at = now.saturating_add(ttl_ms);
        let records: Vec<R> = Vec::new();
        assert(records@ =~= Seq::<R>::empty());
        self.store(name, rtype, CacheResult::Negative, records, false, expires_at);
    }

    /// Inserts a positive entry that lives for `ttl` from now.
    pub fn insert(&mut self, name: &str, rtype: u16, records: Vec<R>, ttl: Duration, authoritative: bool)
        requires
            old(self).wf(),
        ensures
            final(self).wf(),
            exists|expires_at: u64|
                final(self)@ == stored(
                    old(self)@,
                    #[trigger] new_slot(lowercase(name@), rtype, records@, CacheResult::Positive, authoritative, expires_at),
                ),
    {
        let now = clock_millis();
        let ms = saturate_millis(duration_millis(ttl));
        let ghost rs = records@;
        self.insert_at(name, rtype, records, ms, authoritative, now);
        assert(new_slot(lowercase(name@), rtype, rs, CacheResult::Positive, authoritative, expiry(now, ms))
            == SlotView { name: lowercase(name@), rtype, records: rs, result: CacheResult::Positive, authoritative,
            expires_at: expiry(now, ms) });
    }

    /// Inserts a negative entry that lives for `ttl` from now.
    pub fn insert_negative(&mut self, name: &str, rtype: u16, ttl: Duration)
        requires
            old(self).wf(),
        ensures
            final(self).wf(),
            exists|expires_at: u64|
                final(self)@ == stored(
                    old(self)@,
                    #[trigger] new_slot(lowercase(name@), rtype, Seq::empty(), CacheResult::Negative, false, expires_at),
                ),
    {
        let now = clock_millis();
        let ms = saturate_millis(duration_millis(ttl));
        self.insert_negative_at(name, rtype, ms, now);
        assert(new_slot(lowercase(name@), rtype, Seq::<R>::empty(), CacheResult::Negative, false, expiry(now, ms))
            == SlotView { name: lowercase(name@), rtype, records: Seq::<R>::empty(), result: CacheResult::Negative,
            authoritative: false, expires_at: expiry(now, ms) });
    }

    /// Keeps the slots at positions where `keep_flags` is true.
    fn retain_flags(&mut self, keep_flags: &Vec<bool>, keep: Ghost<spec_fn(SlotView<R>) -> bool>)
        requires
            old(self).wf(),
            keep_flags.len() == old(self)@.len(),
            forall|i: int| 0 <= i < keep_flags.len() ==> keep_flags@[i] == (keep@)(#[trigger] old(self)@[i]),
        ensures
            final(self).wf(),
            final(self)@ == kept(old(self)@, keep@),
    {
        let ghost orig = self@;
        let mut old_slots: Vec<Slot<R>> = Vec::new();
        std::mem::swap(&mut old_slots, &mut self.slots);
        let mut new_slots: Vec<Slot<R>> = Vec::new();
        let mut i: usize = 0;
        let n = old_slots.len();
        assert(slots_view(old_slots@) == orig);
        // Take the slots out front to back, keeping those flagged.
        let mut rest = old_slots;
        let ghost all = orig;
        assert(all.take(0) =~= Seq::<SlotView<R>>::empty());
        assert(slots_view(new_slots@) =~= Seq::<SlotView<R>>::empty());
        assert(slots_view(rest@) =~= all.skip(0));
        while rest.len() > 0
            invariant
                i <= n,
                n == all.len(),
                keep_flags.len() == n,
                forall|k: int| 0 <= k < n ==> keep_flags@[k] == (keep@)(#[trigger] all[k]),
                slots_view(rest@) == all.skip(i as int),
                slots_view(new_slots@) == kept(all.take(i as int), keep@),
            decreases rest.len(),
        {
            assert(i < n) by {
                assert(all.skip(i as int).len() == rest.len());
            }
            let ghost prev = rest@;
            let slot = rest.remove(0);
            assert(slot.view_slot() == all[i as int]) by {
                assert(all.skip(i as int)[0] == all[i as int]);
                assert(slots_view(prev)[0] == prev[0].view_slot());
            }
            assert forall|k: int| 0 <= k < rest@.len() implies #[trigger] slots_view(rest@)[k] == all.skip(i + 1)[k] by {
                assert(rest@[k] == prev[k + 1]);
                assert(slots_view(prev)[k + 1] == prev[k + 1].view_slot());
                assert(all.skip(i as int)[k + 1] == all.skip(i + 1)[k]);
            }
            assert(slots_view(prev).len() == prev.len());
            assert(rest@.len() == prev.len() - 1);
            assert(all.skip(i + 1).len() == all.skip(i as int).len() - 1);
            assert(slots_view(rest@) =~= all.skip(i + 1));
            assert(all.take(i + 1).drop_last() == all.take(i as int));
            assert(all.take(i + 1).last() == all[i as int]);
            if keep_flags[i] {
                let ghost before = new_slots@;
                new_slots.push(slot);
                assert(slots_view(new_slots@) =~= slots_view(before).push(all[i as int]));
            }
            i = i + 1;
        }
        assert(i == n) by {
            assert(all.skip(i as int).len() == 0);
        }
        assert(all.take(n as int) == all);
        self.slots = new_slots;
        proof {
            lemma_kept_wf(orig, keep@);
        }
    }

    /// Removes the entry for (`name`, `rtype`); the name is matched
    /// case-insensitively.
    pub fn remove(&mut self, name: &str, rtype: u16)
        requires
            old(self).wf(),
        ensures
            final(self).wf(),
            final(self)@ == kept(
                old(self)@,
                |e: SlotView<R>| !(e.name == lowercase(name@) && e.rtype == rtype),
            ),
    {
        let key = to_lowercase(name);
        let mut flags: Vec<bool> = Vec::new();
        let mut i: usize = 0;
        while i < self.slots.len()
            invariant
                i <= self.slots.len(),
                flags.len() == i,
                forall|k: int| 0 <= k < i ==> flags@[k] == !(#[trigger] self@[k].name == key@ && self@[k].rtype == rtype),
            decreases self.slots.len() - i,
        {
            assert(self@[i as int] == self.slots@[i as int].view_slot());
            let same = self.slots[i].rtype == rtype && same_text(self.slots[i].name.as_str(), key.as_str());
            flags.push(!same);
            i = i + 1;
        }
        let ghost keep = |e: SlotView<R>| !(e.name == key@ && e.rtype == rtype);
        self.retain_flags(&flags, Ghost(keep));
    }

    /// Removes every entry for `name`, whatever its record type; the name is
    /// matched case-insensitively.
    pub fn remove_name(&mut self, name: &str)
        requires
            old(self).wf(),
        ensures
            final(self).wf(),
            final(self)@ == kept(old(self)@, |e: SlotView<R>| e.name != lowercase(name@)),
    {
        let key = to_lowercase(name);
        let mut flags: Vec<bool> = Vec::new();
        let mut i: usize = 0;
        while i < self.slots.len()
            invariant
                i <= self.slots.len(),
                flags.len() == i,
                forall|k: int| 0 <= k < i ==> flags@[k] == (#[trigger] self@[k].name != key@),
            decreases self.slots.len() - i,
        {
            assert(self@[i as int] == self.slots@[i as int].view_slot());
            let same = same_text(self.slots[i].name.as_str(), key.as_str());
            flags.push(!same);
            i = i + 1;
        }
        let ghost keep = |e: SlotView<R>| e.name != key@;
        self.retain_flags(&flags, Ghost(keep));
    }

    /// Removes every entry whose name is `zone` or a name below it, label by
    /// label after trailing dots are removed and case is folded.
    pub fn clear_zone(&mut self, zone: &str)
        requires
            old(self).wf(),
        ensures
            final(self).wf(),
            final(self)@ == kept(
                old(self)@,
                |e: SlotView<R>| !is_suffix_of(name_labels(zone@), name_labels(e.name)),
            ),
    {
        let zone_labels = normalized_labels(zone);
        let mut flags: Vec<bool> = Vec::new();
        let mut i: usize = 0;
        while i < self.slots.len()
            invariant
                i <= self.slots.len(),
                flags.len() == i,
                labels_view(zone_labels@) == name_labels(zone@),
                forall|k: int| 0 <= k < i ==> flags@[k] == !is_suffix_of(name_labels(zone@), name_labels(#[trigger] self@[k].name)),
            decreases self.slots.len() - i,
        {
            assert(self@[i as int] == self.slots@[i as int].view_slot());
            let labels = normalized_labels(self.slots[i].name.as_str());
            let inside = ends_with_labels(&labels, &zone_labels);
            flags.push(!inside);
            i = i + 1;
        }
        let ghost keep = |e: SlotView<R>| !is_suffix_of(name_labels(zone@), name_labels(e.name));
        self.retain_flags(&flags, Ghost(keep));
    }

    /// Removes the entries that are stale at `now`; returns how many.
    pub fn prune_at(&mut self, now: u64) -> (n: usize)
        requires
            old(self).wf(),
        ensures
            final(self).wf(),
            final(self)@ == live_slots(old(self)@, now),
            n == old(self)@.len() - final(self)@.len(),
    {
        let before = self.slots.len();
        let mut flags: Vec<bool> = Vec::new();
        let mut i: usize = 0;
        while i < self.slots.len()
            invariant
                i <= self.slots.len(),
                flags.len() == i,
                forall|k: int| 0 <= k < i ==> flags@[k] == !is_expired(#[trigger] self@[k], now),
            decreases self.slots.len() - i,
        {
            assert(self@[i as int] == self.slots@[i as int].view_slot());
            flags.push(!self.slots[i].entry.is_expired_at(now));
            i = i + 1;
        }
        let ghost orig = self@;
        let ghost keep = |e: SlotView<R>| !is_expired(e, now);
        self.retain_flags(&flags, Ghost(keep));
        proof {
            lemma_kept_len(orig, keep);
        }
        before - self.slots.len()
    }

    /// Removes the entries that are stale now; returns how many.
    pub fn prune(&mut self) -> (n: usize)
        requires
            old(self).wf(),
        ensures
            final(self).wf(),
            exists|now: u64| final(self)@ == #[trigger] live_slots(old(self)@, now),
            n == old(self)@.len() - final(self)@.len(),
    {
        let now = clock_millis();
        self.prune_at(now)
    }

    /// The number of entries, stale ones included.
    pub fn len(&self) -> (n: usize)
        ensures
            n == self@.len(),
    {
        self.slots.len()
    }

    /// The cache holds no entry.
    pub fn is_empty(&self) -> (b: bool)
        ensures
            b == (self@.len() == 0),
    {
        self.slots.len() == 0
    }

    /// Removes every entry.
    pub fn clear(&mut self)
        ensures
            final(self).wf(),
            final(self)@.len() == 0,
    {
        self.slots = Vec::new();
        assert(self@ =~= Seq::<SlotView<R>>::empty());
    }

    /// The live entries at `now`, in cache order: name, record type, whole
    /// seconds left (as `u32`, wrapping) and records.
    pub fn list_all_at(&self, now: u64) -> (r: Vec<(String, u16, u32, &Vec<R>)>)
        ensures
            lists_at(self@, now, r@),
    {
        let mut out: Vec<(String, u16, u32, &Vec<R>)> = Vec::new();
        let mut i: usize = 0;
        assert(self@.take(0) =~= Seq::<SlotView<R>>::empty());
        while i < self.slots.len()
            invariant
                i <= self.slots.len(),
                out@.len() == live_slots(self@.take(i as int), now).len(),
                forall|k: int| 0 <= k < out@.len() ==> {
                    let e = #[trigger] live_slots(self@.take(i as int), now)[k];
                    &&& out@[k].0@ == e.name
                    &&& out@[k].1 == e.rtype
                    &&& out@[k].2 == (((e.expires_at - now) / 1000) as u32)
                    &&& out@[k].3@ == e.records
                },
            decreases self.slots.len() - i,
        {
            assert(self@[i as int] == self.slots@[i as int].view_slot());
            assert(self@.take(i + 1).drop_last() == self@.take(i as int));
            assert(self@.take(i + 1).last() == self@[i as int]);
            let s = &self.slots[i];
            if !s.entry.is_expired_at(now) {
                let secs = ((s.entry.expires_at - now) / 1000) as u32;
                out.push((s.name.clone(), s.rtype, secs, &s.entry.records));
            }
            i = i + 1;
        }
        assert(self@.take(self.slots.len() as int) == self@);
        out
    }

    /// The live entries now, by the cache clock.
    pub fn list_all(&self) -> (r: Vec<(String, u16, u32, &Vec<R>)>)
        ensures
            exists|now: u64| #[trigger] lists_at(self@, now, r@),
    {
        let now = clock_millis();
        self.list_all_at(now)
    }
}

/// `s` without its first slot keeps a well-formed cache well formed.
proof fn lemma_drop_first_wf<R>(s: Seq<SlotView<R>>)
    requires
        cache_wf(s),
        s.len() > 0,
    ensures
        cache_wf(s.drop_first()),
{
    let d = s.drop_first();
    assert forall|i: int, j: int| 0 <= i < j < d.len() implies !(#[trigger] d[i].name == #[trigger] d[j].name
        && d[i].rtype == d[j].rtype) by {
        assert(d[i] == s[i + 1] && d[j] == s[j + 1]);
    }
}

/// The slot of a key present at position `i` of a well-formed cache is found there.
proof fn lemma_slot_index_at<R>(s: Seq<SlotView<R>>, i: int)
    requires
        cache_wf(s),
        0 <= i < s.len(),
    ensures
        slot_index(s, s[i].name, s[i].rtype) == Some(i),
{
    let j = choose|j: int| 0 <= j < s.len() && s[j].name == s[i].name && s[j].rtype == s[i].rtype;
    if j != i {
        if j < i {
            assert(!(s[j].name == s[i].name && s[j].rtype == s[i].rtype));
        } else {
            assert(!(s[i].name == s[j].name && s[i].rtype == s[j].rtype));
        }
    }
}

/// Storing a slot keeps the cache well formed: keys stay distinct and the
/// cache never holds more than `CACHE_CAPACITY` slots.
pub proof fn lemma_store_bounded<R>(s: Seq<SlotView<R>>, e: SlotView<R>)
    requires
        cache_wf(s),
    ensures
        cache_wf(stored(s, e)),
        stored(s, e).len() <= CACHE_CAPACITY,
{
    let base = if s.len() >= CACHE_CAPACITY { s.drop_first() } else { s };
    if s.len() >= CACHE_CAPACITY {
        lemma_drop_first_wf(s);
    }
    let r = stored(s, e);
    match slot_index(base, e.name, e.rtype) {
        Some(i) => {
            assert(r == base.update(i, e));
            assert forall|a: int, b: int| 0 <= a < b < r.len() implies !(#[trigger] r[a].name == #[trigger] r[b].name
                && r[a].rtype == r[b].rtype) by {
                if a == i {
                    assert(!(base[i].name == base[b].name && base[i].rtype == base[b].rtype));
                } else if b == i {
                    assert(!(base[a].name == base[i].name && base[a].rtype == base[i].rtype));
                }
            }
        },
        None => {
            assert(r == base.push(e));
            assert forall|a: int, b: int| 0 <= a < b < r.len() implies !(#[trigger] r[a].name == #[trigger] r[b].name
                && r[a].rtype == r[b].rtype) by {
                if b == base.len() {
                    assert(!(base[a].name == e.name && base[a].rtype == e.rtype));
                }
            }
        },
    }
}

/// Read after write: a stored slot is what a lookup of its key finds at any
/// time before it expires, and nothing is found from its expiry on.
pub proof fn lemma_store_then_get<R>(s: Seq<SlotView<R>>, e: SlotView<R>, now: u64)
    requires
        cache_wf(s),
    ensures
        now < e.expires_at ==> live_entry(stored(s, e), e.name, e.rtype, now) == Some(e),
        now >= e.expires_at ==> live_entry(stored(s, e), e.name, e.rtype, now) is None,
{
    lemma_store_bounded(s, e);
    let base = if s.len() >= CACHE_CAPACITY { s.drop_first() } else { s };
    let r = stored(s, e);
    let pos = match slot_index(base, e.name, e.rtype) {
        Some(i) => i,
        None => base.len() as int,
    };
    assert(r[pos] == e);
    lemma_slot_index_at(r, pos);
}

/// A removed key is not found afterwards.
pub proof fn lemma_remove_then_get<R>(s: Seq<SlotView<R>>, name: Seq<char>, rtype: u16, now: u64)
    requires
        cache_wf(s),
    ensures
        live_entry(kept(s, |e: SlotView<R>| !(e.name == name && e.rtype == rtype)), name, rtype, now) is None,
{
    let keep = |e: SlotView<R>| !(e.name == name && e.rtype == rtype);
    let k = kept(s, keep);
    lemma_kept_len(s, keep);
    if exists|i: int| 0 <= i < k.len() && k[i].name == name && k[i].rtype == rtype {
        let i = choose|i: int| 0 <= i < k.len() && k[i].name == name && k[i].rtype == rtype;
        assert(keep(k[i]));
    }
}

/// Membership in `kept`: exactly the slots of `s` that pass `keep`.
proof fn lemma_kept_contains<R>(s: Seq<SlotView<R>>, keep: spec_fn(SlotView<R>) -> bool, x: SlotView<R>)
    ensures
        kept(s, keep).contains(x) <==> (s.contains(x) && keep(x)),
    decreases s.len(),
{
    if s.len() > 0 {
        lemma_kept_contains(s.drop_last(), keep, x);
        let p = s.drop_last();
        if s.contains(x) && keep(x) {
            let i = choose|i: int| 0 <= i < s.len() && s[i] == x;
            if i < p.len() {
                assert(p[i] == x);
                assert(p.contains(x));
                let k = kept(p, keep);
                let j = choose|j: int| 0 <= j < k.len() && k[j] == x;
                if keep(s.last()) {
                    assert(kept(s, keep)[j] == x);
                }
            } else {
                assert(s.last() == x);
                assert(kept(s, keep)[kept(s, keep).len() - 1] == x);
            }
        }
        if kept(s, keep).contains(x) {
            let j = choose|j: int| 0 <= j < kept(s, keep).len() && kept(s, keep)[j] == x;
            if keep(s.last()) && j == kept(s, keep).len() - 1 {
                assert(s[s.len() - 1] == x);
            } else {
                assert(kept(p, keep)[j] == x);
                assert(kept(p, keep).contains(x));
                let i = choose|i: int| 0 <= i < p.len() && p[i] == x;
                assert(s[i] == x);
            }
        }
    }
}

/// Pruning at `now` does not change what any lookup at `now` finds.
pub proof fn lemma_prune_keeps_reads<R>(s: Seq<SlotView<R>>, name: Seq<char>, rtype: u16, now: u64)
    requires
        cache_wf(s),
    ensures
        live_entry(live_slots(s, now), name, rtype, now) == live_entry(s, name, rtype, now),
{
    let keep = |e: SlotView<R>| !is_expired(e, now);
    let k = live_slots(s, now);
    lemma_kept_wf(s, keep);
    lemma_kept_len(s, keep);
    match slot_index(s, name, rtype) {
        Some(i) => {
            lemma_slot_index_at(s, i);
            if !is_expired(s[i], now) {
                lemma_kept_contains(s, keep, s[i]);
                let j = choose|j: int| 0 <= j < k.len() && k[j] == s[i];
                lemma_slot_index_at(k, j);
            } else {
                if exists|j: int| 0 <= j < k.len() && k[j].name == name && k[j].rtype == rtype {
                    let j = choose|j: int| 0 <= j < k.len() && k[j].name == name && k[j].rtype == rtype;
                    assert(s.contains(k[j]));
                    let m = choose|m: int| 0 <= m < s.len() && s[m] == k[j];
                    lemma_slot_index_at(s, m);
                    assert(keep(k[j]));
                }
            }
        },
        None => {
            if exists|j: int| 0 <= j < k.len() && k[j].name == name && k[j].rtype == rtype {
                let j = choose|j: int| 0 <= j < k.len() && k[j].name == name && k[j].rtype == rtype;
                assert(s.contains(k[j]));
                let m = choose|m: int| 0 <= m < s.len() && s[m] == k[j];
                assert(s[m].name == name && s[m].rtype == rtype);
            }
        },
    }
}

/// Hit and miss counters of the cache, kept by whoever answers the requests.
/// Each count wraps to 0 after `u64::MAX`, as an atomic counter does.
pub struct CacheStats {
    hits: u64,
    misses: u64,
}

impl CacheStats {
    /// The number of hits counted.
    pub closed spec fn hits(&self) -> u64 {
        self.hits
    }

    /// The number of misses counted.
    pub closed spec fn misses(&self) -> u64 {
        self.misses
    }

    /// Counters at zero.
    pub fn new() -> (s: CacheStats)
        ensures
            s.hits() == 0,
            s.misses() == 0,
    {
        CacheStats::default()
    }

    /// Counters at zero.
    pub fn default() -> (s: CacheStats)
        ensures
            s.hits() == 0,
            s.misses() == 0,
    {
        CacheStats { hits: 0, misses: 0 }
    }

    /// Counts a cache hit.
    pub fn record_hit(&mut self)
        ensures
            final(self).hits() == next_count(old(self).hits()),
            final(self).misses() == old(self).misses(),
    {
        self.hits = if self.hits == u64::MAX {
            0
        } else {
            self.hits + 1
        };
    }

    /// Counts a cache miss.
    pub fn record_miss(&mut self)
        ensures
            final(self).hits() == old(self).hits(),
            final(self).misses() == next_count(old(self).misses()),
    {
        self.misses = if self.misses == u64::MAX {
            0
        } else {
            self.misses + 1
        };
    }

    /// The current (hits, misses).
    pub fn snapshot(&self) -> (r: (u64, u64))
        ensures
            r == (self.hits(), self.misses()),
    {
        (self.hits, self.misses)
    }
}

} // verus!
