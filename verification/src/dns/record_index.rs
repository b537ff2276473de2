//! First-generation in-memory authoritative record index.
//!
//! Buckets are keyed by `(lowercase name, uppercase type)`. Resolution
//! follows CNAME chains like the current index but has no `ANY` support, no
//! zone apex and no empty non-terminals: a name exists only when it owns
//! records, and a chain whose target is missing answers `Nodata`/`Miss`.
use vstd::prelude::*;

use crate::db::records::DnsRecord;
use crate::mydns::db::records::{extend_cloned, without_id};
use crate::mydns::dns::record_index::{
    buckets_view, buckets_wf, lemma_lookup_at, lemma_without_buckets_wf, lemma_without_record_wf,
    lookup, upserted_at, without_buckets, without_record, Bucket, BucketView, Resolved,
};
use crate::names::{lowercase, normalize, normalize_name, same_text, to_lowercase, to_uppercase, uppercase};

verus! {

broadcast use vstd::string::group_string_axioms;

/// Result of an authoritative record index lookup with CNAME chain resolution.
#[derive(Debug)]
pub enum IndexResolution {
    /// Records found. The `Vec` contains the full answer section: any CNAME
    /// chain records are prepended in traversal order, and the target type
    /// records are appended at the end.
    Found(Vec<DnsRecord>),
    /// The queried name exists in the index but has no records of the requested
    /// type (and no CNAME to follow). Corresponds to a DNS NODATA response.
    Nodata,
    /// The queried name is not present in the index at all. The caller should
    /// fall through to the upstream pipeline.
    Miss,
    /// A CNAME loop or excessive recursion depth was detected.
    ServFail,
}

impl View for IndexResolution {
    type V = Resolved;

    open spec fn view(&self) -> Resolved {
        match self {
            IndexResolution::Found(v) => Resolved::Found(v@),
            IndexResolution::Nodata => Resolved::Nodata,
            IndexResolution::Miss => Resolved::Miss,
            IndexResolution::ServFail => Resolved::ServFail,
        }
    }
}

/// The exact-pair lookup of this index: name lowercased, type uppercased.
pub open spec fn raw_lookup(bs: Seq<BucketView>, name: Seq<char>, rtype: Seq<char>) -> Option<Seq<DnsRecord>> {
    lookup(bs, lowercase(name), uppercase(rtype))
}

/// Some bucket is named `name` once lowercased.
pub open spec fn name_owned(bs: Seq<BucketView>, name: Seq<char>) -> bool {
    exists|i: int| 0 <= i < bs.len() && #[trigger] bs[i].0 == lowercase(name)
}

/// `Nodata` when `current` owns records, otherwise `Miss`.
pub open spec fn absent(bs: Seq<BucketView>, current: Seq<char>) -> Resolved {
    if name_owned(bs, current) {
        Resolved::Nodata
    } else {
        Resolved::Miss
    }
}

/// Resolution from `current`, having followed `chain` through `visited`,
/// with at most `fuel` names left to visit.
pub open spec fn chain_steps(
    bs: Seq<BucketView>,
    upper: Seq<char>,
    current: Seq<char>,
    chain: Seq<DnsRecord>,
    visited: Set<Seq<char>>,
    fuel: nat,
) -> Resolved
    decreases fuel,
{
    if fuel == 0 || visited.contains(current) {
        Resolved::ServFail
    } else if raw_lookup(bs, current, upper) is Some {
        Resolved::Found(chain + raw_lookup(bs, current, upper)->0)
    } else if upper == "CNAME"@ {
        absent(bs, current)
    } else if raw_lookup(bs, current, "CNAME"@) is Some && raw_lookup(bs, current, "CNAME"@)->0.len() > 0 {
        let c = raw_lookup(bs, current, "CNAME"@)->0[0];
        chain_steps(bs, upper, normalize(c.value@), chain.push(c), visited.insert(current), (fuel - 1) as nat)
    } else {
        absent(bs, current)
    }
}

/// The answer of an index with buckets `bs` for a query.
pub open spec fn legacy_resolution(bs: Seq<BucketView>, name: Seq<char>, rtype: Seq<char>) -> Resolved {
    chain_steps(bs, uppercase(rtype), normalize(name), Seq::empty(), Set::empty(), 11)
}

/// The texts of `v`, as a set.
pub open spec fn visited_set(v: Seq<String>) -> Set<Seq<char>> {
    v.map_values(|x: String| x@).to_set()
}

/// In-memory authoritative record index.
///
/// Keyed by `(lowercase_name, uppercase_rtype)` — the same normalisation used
/// by the DB layer. Kept coherent via incremental updates on every CRUD
/// mutation.
pub struct RecordIndex {
    buckets: Vec<Bucket>,
}

impl View for RecordIndex {
    type V = Seq<BucketView>;

    closed spec fn view(&self) -> Seq<BucketView> {
        buckets_view(self.buckets@)
    }
}

impl RecordIndex {
    /// The index's internal consistency: distinct, non-empty buckets.
    pub closed spec fn wf(&self) -> bool {
        buckets_wf(self@)
    }

    /// An empty index.
    pub fn new() -> (idx: Self)
        ensures
            idx.wf(),
            idx@ == Seq::<BucketView>::empty(),
    {
        let idx = RecordIndex { buckets: Vec::new() };
        assert(idx@ =~= Seq::<BucketView>::empty());
        idx
    }

    fn find_bucket(&self, name: &String, rtype: &String) -> (r: Option<usize>)
        ensures
            match r {
                Some(i) => i < self@.len() && self@[i as int].0 == name@ && self@[i as int].1 == rtype@,
                None => forall|i: int| 0 <= i < self@.len() ==> !(#[trigger] self@[i].0 == name@ && self@[i].1 == rtype@),
            },
    {
        for i in 0..self.buckets.len()
            invariant
                forall|j: int| 0 <= j < i ==> !(#[trigger] self@[j].0 == name@ && self@[j].1 == rtype@),
        {
            if self.buckets[i].name == *name && self.buckets[i].rtype == *rtype {
                return Some(i);
            }
        }
        None
    }

    /// Inserts or updates a single record in the index.
    ///
    /// If a record with the same `id` already exists under the same
    /// `(name, rtype)` key it is replaced. This handles in-place updates
    /// where neither name nor type change.
    pub fn upsert(&mut self, record: DnsRecord)
        requires
            old(self).wf(),
        ensures
            final(self).wf(),
            final(self)@ == upserted_at(old(self)@, lowercase(record.name@), uppercase(record.record_type@), record),
    {
        let name = to_lowercase(record.name.as_str());
        let rtype = to_uppercase(record.record_type.as_str());
        let ghost bs = self@;
        match self.find_bucket(&name, &rtype) {
            Some(i) => {
                let mut records = without_id(self.buckets[i].records.as_slice(), record.id);
                records.push(record);
                let ghost nb = (name@, rtype@, records@);
                self.buckets.set(i, Bucket { name, rtype, records });
                proof {
                    assert(self@ =~= bs.update(i as int, nb));
                    let j = choose|j: int| 0 <= j < bs.len() && #[trigger] bs[j].0 == nb.0 && bs[j].1 == nb.1;
                    assert(j == i);
                    assert(buckets_wf(self@)) by {
                        let s = self@;
                        assert forall|a: int, b: int|
                            0 <= a < s.len() && 0 <= b < s.len() && a != b implies (#[trigger] s[a].0 != #[trigger] s[b].0
                                || s[a].1 != s[b].1) by {
                            assert(bs[a].0 != bs[b].0 || bs[a].1 != bs[b].1);
                        }
                    }
                }
            },
            None => {
                let ghost nb = (name@, rtype@, seq![record]);
                let mut records: Vec<DnsRecord> = Vec::new();
                records.push(record);
                self.buckets.push(Bucket { name, rtype, records });
                proof {
                    assert(self@ =~= bs.push(nb));
                    assert(buckets_wf(self@)) by {
                        let s = self@;
                        assert forall|a: int, b: int|
                            0 <= a < s.len() && 0 <= b < s.len() && a != b implies (#[trigger] s[a].0 != #[trigger] s[b].0
                                || s[a].1 != s[b].1) by {
                            if a < bs.len() && b < bs.len() {
                                assert(bs[a].0 != bs[b].0 || bs[a].1 != bs[b].1);
                            } else if a < bs.len() {
                                assert(!(bs[a].0 == nb.0 && bs[a].1 == nb.1));
                            } else {
                                assert(!(bs[b].0 == nb.0 && bs[b].1 == nb.1));
                            }
                        }
                        assert forall|a: int| 0 <= a < s.len() implies #[trigger] s[a].2.len() > 0 by {
                            if a < bs.len() {
                                assert(s[a] == bs[a]);
                            }
                        }
                    }
                }
            },
        }
    }

    /// Removes a record by its primary key, scanning all buckets.
    ///
    /// This is the correct invalidation primitive for updates and deletes
    /// because neither the old name nor the old type need to be known by the
    /// caller — the record is located purely by `id`.
    pub fn remove_by_id(&mut self, id: i64)
        requires
            old(self).wf(),
        ensures
            final(self).wf(),
            final(self)@ == without_record(old(self)@, id),
    {
        let ghost bs = self@;
        let mut kept_buckets: Vec<Bucket> = Vec::new();
        for i in 0..self.buckets.len()
            invariant
                bs == self@,
                buckets_view(kept_buckets@) == without_record(bs.take(i as int), id),
        {
            assert(bs.take(i + 1).drop_last() =~= bs.take(i as int));
            let kept = without_id(self.buckets[i].records.as_slice(), id);
            if kept.len() > 0 {
                let b = Bucket { name: self.buckets[i].name.clone(), rtype: self.buckets[i].rtype.clone(), records: kept };
                let ghost before = kept_buckets@;
                kept_buckets.push(b);
                assert(buckets_view(kept_buckets@) =~= buckets_view(before).push(b.view()));
            }
        }
        assert(bs.take(bs.len() as int) =~= bs);
        proof {
            lemma_without_record_wf(bs, id);
        }
        self.buckets = kept_buckets;
    }

    /// Removes records by name and optionally by type.
    ///
    /// - `rtype = None` removes all records for the name across every type.
    /// - `rtype = Some(t)` removes only records of that specific type.
    pub fn remove(&mut self, name: &str, rtype: Option<&str>)
        requires
            old(self).wf(),
        ensures
            final(self).wf(),
            final(self)@ == without_buckets(
                old(self)@,
                lowercase(name@),
                match rtype { Some(t) => Some(uppercase(t@)), None => None },
            ),
    {
        let lower_name = to_lowercase(name);
        let upper: Option<String> = match rtype {
            Some(t) => Some(to_uppercase(t)),
            None => None,
        };
        let ghost bs = self@;
        let ghost up = match &upper { Some(u) => Some(u@), None => None::<Seq<char>> };
        let mut kept_buckets: Vec<Bucket> = Vec::new();
        let mut i: usize = 0;
        while i < self.buckets.len()
            invariant
                i <= self.buckets.len(),
                bs == self@,
                buckets_view(kept_buckets@) == without_buckets(bs.take(i as int), lower_name@, up),
                match &upper {
                    Some(u) => up == Some(u@),
                    None => up is None,
                },
            decreases self.buckets.len() - i,
        {
            assert(bs.take(i + 1).drop_last() =~= bs.take(i as int));
            let matches_type = match &upper {
                Some(u) => self.buckets[i].rtype == *u,
                None => true,
            };
            assert(bs[i as int] == self.buckets@[i as int].view());
            assert(bs.take(i + 1).last() == bs[i as int]);
            if !(self.buckets[i].name == lower_name && matches_type) {
                let mut copy: Vec<DnsRecord> = Vec::new();
                extend_cloned(&mut copy, self.buckets[i].records.as_slice());
                let b = Bucket { name: self.buckets[i].name.clone(), rtype: self.buckets[i].rtype.clone(), records: copy };
                let ghost before = kept_buckets@;
                kept_buckets.push(b);
                assert(buckets_view(kept_buckets@) =~= buckets_view(before).push(b.view()));
                assert(b.view() == bs.take(i + 1).last());
            } else {
                assert(self.buckets@[i as int].name@ == lower_name@);
            }
            i = i + 1;
        }
        assert(bs.take(bs.len() as int) =~= bs);
        proof {
            lemma_without_buckets_wf(bs, lower_name@, up);
        }
        self.buckets = kept_buckets;
    }

    /// Flat lookup — returns raw records for an exact `(name, rtype)` pair
    /// without CNAME chain traversal.
    fn lookup_raw(&self, name: &str, rtype: &str) -> (r: Option<&[DnsRecord]>)
        requires
            self.wf(),
        ensures
            match r {
                Some(s) => raw_lookup(self@, name@, rtype@) == Some(s@),
                None => raw_lookup(self@, name@, rtype@) is None,
            },
    {
        let n = to_lowercase(name);
        let t = to_uppercase(rtype);
        match self.find_bucket(&n, &t) {
            Some(i) => {
                proof {
                    lemma_lookup_at(self@, i as int);
                }
                Some(self.buckets[i].records.as_slice())
            },
            None => None,
        }
    }

    /// Returns `true` if any record exists for `name` regardless of type.
    fn name_exists(&self, name: &str) -> (b: bool)
        ensures
            b == name_owned(self@, name@),
    {
        let lower = to_lowercase(name);
        for i in 0..self.buckets.len()
            invariant
                lower@ == lowercase(name@),
                forall|j: int| 0 <= j < i ==> self@[j].0 != lower@,
        {
            if self.buckets[i].name == lower {
                assert(self@[i as int].0 == lowercase(name@));
                return true;
            }
        }
        false
    }

    /// CNAME-chain-aware authoritative lookup.
    ///
    /// Returns:
    /// - [`IndexResolution::Found`] — CNAME chain prepended, target records appended.
    /// - [`IndexResolution::Nodata`] — name exists but no records of `rtype_str`.
    /// - [`IndexResolution::Miss`] — name is not in the index; caller falls through.
    /// - [`IndexResolution::ServFail`] — CNAME loop, or more than 10 hops.
    pub fn resolve_authoritative(&self, name: &str, rtype_str: &str) -> (r: IndexResolution)
        requires
            self.wf(),
        ensures
            r@ == legacy_resolution(self@, name@, rtype_str@),
    {
        let ghost bs = self@;
        let mut current = normalize_name(name);
        let mut chain: Vec<DnsRecord> = Vec::new();
        let mut visited: Vec<String> = Vec::new();
        let upper = to_uppercase(rtype_str);
        let is_cname = same_text(upper.as_str(), "CNAME");
        let ghost target = legacy_resolution(bs, name@, rtype_str@);
        let mut step: u8 = 0;
        assert(visited_set(visited@) =~= Set::<Seq<char>>::empty());
        while step <= 10
            invariant
                bs == self@,
                self.wf(),
                step <= 11,
                is_cname == (upper@ == "CNAME"@),
                upper@ == uppercase(rtype_str@),
                target == legacy_resolution(bs, name@, rtype_str@),
                chain_steps(bs, upper@, current@, chain@, visited_set(visited@), (11 - step) as nat) == target,
            decreases 11 - step,
        {
            let ghost vis = visited_set(visited@);
            let mut seen = false;
            for j in 0..visited.len()
                invariant
                    seen == exists|k: int| 0 <= k < j && #[trigger] visited@[k]@ == current@,
            {
                if visited[j] == current {
                    seen = true;
                }
            }
            if seen {
                proof {
                    let k = choose|k: int| 0 <= k < visited@.len() && #[trigger] visited@[k]@ == current@;
                    assert(visited@.map_values(|v: String| v@)[k] == current@);
                    assert(visited@.map_values(|v: String| v@).contains(current@));
                    assert(vis.contains(current@));
                }
                return IndexResolution::ServFail;
            }
            assert(!vis.contains(current@));
            let ghost old_visited = visited@;
            visited.push(current.clone());
            assert(visited_set(visited@) =~= vis.insert(current@)) by {
                let a = old_visited.map_values(|v: String| v@);
                let b = visited@.map_values(|v: String| v@);
                assert(b =~= a.push(current@));
                assert forall|x: Seq<char>| b.contains(x) <==> a.contains(x) || x == current@ by {
                    if b.contains(x) {
                        let k = choose|k: int| 0 <= k < b.len() && b[k] == x;
                        if k < a.len() {
                            assert(a[k] == x);
                        }
                    }
                    if a.contains(x) {
                        let k = choose|k: int| 0 <= k < a.len() && a[k] == x;
                        assert(b[k] == x);
                    }
                    if x == current@ {
                        assert(b[a.len() as int] == x);
                    }
                }
            }
            if let Some(target_records) = self.lookup_raw(current.as_str(), upper.as_str()) {
                let mut result = chain;
                extend_cloned(&mut result, target_records);
                return IndexResolution::Found(result);
            }
            if is_cname {
                return if self.name_exists(current.as_str()) {
                    IndexResolution::Nodata
                } else {
                    IndexResolution::Miss
                };
            }
            let cname = self.lookup_raw(current.as_str(), "CNAME");
            match cname {
                Some(cs) if cs.len() > 0 => {
                    let c = cs[0].clone();
                    current = normalize_name(c.value.as_str());
                    chain.push(c);
                },
                _ => {
                    return if self.name_exists(current.as_str()) {
                        IndexResolution::Nodata
                    } else {
                        IndexResolution::Miss
                    };
                },
            }
            step = step + 1;
        }
        IndexResolution::ServFail
    }
}

impl Default for RecordIndex {
    fn default() -> (r: Self)
        ensures
            r.wf(),
            r@ == Seq::<BucketView>::empty(),
    {
        RecordIndex::new()
    }
}


/// Link `i` of `cycle`: its name holds no record of type `upper` but a
/// CNAME whose target is the next name of the cycle (the first after the last).
pub open spec fn chain_link(bs: Seq<BucketView>, upper: Seq<char>, cycle: Seq<Seq<char>>, i: int) -> bool {
    let next = if i + 1 < cycle.len() {
        i + 1
    } else {
        0
    };
    &&& raw_lookup(bs, cycle[i], upper) is None
    &&& raw_lookup(bs, cycle[i], "CNAME"@) matches Some(cs) && cs.len() > 0 && normalize(cs[0].value@) == cycle[next]
}

/// Following CNAMEs from the first name of `cycle` runs round it forever,
/// never meeting a record of type `upper`.
pub open spec fn is_chain_cycle(bs: Seq<BucketView>, upper: Seq<char>, cycle: Seq<Seq<char>>) -> bool {
    &&& cycle.len() > 0
    &&& forall|i: int| 0 <= i < cycle.len() ==> #[trigger] chain_link(bs, upper, cycle, i)
}

proof fn lemma_chain_cycle_steps(
    bs: Seq<BucketView>,
    upper: Seq<char>,
    cycle: Seq<Seq<char>>,
    j: int,
    chain: Seq<DnsRecord>,
    visited: Set<Seq<char>>,
    fuel: nat,
)
    requires
        is_chain_cycle(bs, upper, cycle),
        upper != "CNAME"@,
        0 <= j < cycle.len(),
    ensures
        chain_steps(bs, upper, cycle[j], chain, visited, fuel) == Resolved::ServFail,
    decreases fuel,
{
    if fuel > 0 && !visited.contains(cycle[j]) {
        assert(chain_link(bs, upper, cycle, j));
        let next = if j + 1 < cycle.len() {
            j + 1
        } else {
            0
        };
        let c = raw_lookup(bs, cycle[j], "CNAME"@)->0[0];
        lemma_chain_cycle_steps(bs, upper, cycle, next, chain.push(c), visited.insert(cycle[j]), (fuel - 1) as nat);
    }
}

/// Loop detection: a query (of a type other than CNAME) whose CNAME chain
/// runs round a cycle of names, none of which holds a record of the queried
/// type, is answered SERVFAIL.
pub proof fn lemma_chain_cycle_is_servfail(
    bs: Seq<BucketView>,
    name: Seq<char>,
    rtype: Seq<char>,
    cycle: Seq<Seq<char>>,
)
    requires
        is_chain_cycle(bs, uppercase(rtype), cycle),
        uppercase(rtype) != "CNAME"@,
        cycle[0] == normalize(name),
    ensures
        legacy_resolution(bs, name, rtype) == Resolved::ServFail,
{
    lemma_chain_cycle_steps(bs, uppercase(rtype), cycle, 0, Seq::empty(), Set::empty(), 11);
}

} // verus!
