//! In-memory authoritative record index with CNAME chain resolution.
use vstd::prelude::*;

use crate::mydns::db::records::{drop_id, extend_cloned, without_id, DnsRecord};
use crate::names::{
    normalize, normalize_name, same_text, string_from_chars, chars_of, strip_trailing_dots,
    to_uppercase, trim_trailing_dots, uppercase,
};

verus! {

broadcast use vstd::string::group_string_axioms;

/// Result of an authoritative record index lookup with CNAME chain resolution.
#[derive(Debug)]
pub enum IndexResolution {
    /// Records found. The `Vec` contains the full answer section: any CNAME
    /// chain records are prepended in traversal order, and the target type
    /// records are appended at the end.
    Found(Vec<DnsRecord>),
    /// The queried name exists in the index but has no records of the requested
    /// type (and no CNAME to follow). Corresponds to a DNS NODATA response.
    Nodata,
    /// The queried name is not present in the index at all. The caller should
    /// fall through to the upstream pipeline.
    Miss,
    /// A CNAME loop or excessive recursion depth was detected.
    ServFail,
}

/// The abstract outcome of a lookup.
pub enum Resolved {
    Found(Seq<DnsRecord>),
    Nodata,
    Miss,
    ServFail,
}

impl View for IndexResolution {
    type V = Resolved;

    open spec fn view(&self) -> Resolved {
        match self {
            IndexResolution::Found(v) => Resolved::Found(v@),
            IndexResolution::Nodata => Resolved::Nodata,
            IndexResolution::Miss => Resolved::Miss,
            IndexResolution::ServFail => Resolved::ServFail,
        }
    }
}

/// One bucket of the index: normalised owner name, uppercased record type,
/// and the records stored under that pair, in insertion order.
pub type BucketView = (Seq<char>, Seq<char>, Seq<DnsRecord>);

pub(crate) struct Bucket {
    pub(crate) name: String,
    pub(crate) rtype: String,
    pub(crate) records: Vec<DnsRecord>,
}

impl Bucket {
    pub(crate) open spec fn view(&self) -> BucketView {
        (self.name@, self.rtype@, self.records@)
    }
}

pub(crate) open spec fn buckets_view(bs: Seq<Bucket>) -> Seq<BucketView> {
    bs.map_values(|b: Bucket| b.view())
}

/// The records stored under `(name, rtype)`, if that pair has a bucket.
pub open spec fn lookup(bs: Seq<BucketView>, name: Seq<char>, rtype: Seq<char>) -> Option<Seq<DnsRecord>> {
    if exists|i: int| 0 <= i < bs.len() && #[trigger] bs[i].0 == name && bs[i].1 == rtype {
        Some(bs[choose|i: int| 0 <= i < bs.len() && #[trigger] bs[i].0 == name && bs[i].1 == rtype].2)
    } else {
        None
    }
}

/// Every record stored under `name`, bucket after bucket.
pub open spec fn records_named(bs: Seq<BucketView>, name: Seq<char>) -> Seq<DnsRecord>
    decreases bs.len(),
{
    if bs.len() == 0 {
        Seq::empty()
    } else if bs.last().0 == name {
        records_named(bs.drop_last(), name) + bs.last().2
    } else {
        records_named(bs.drop_last(), name)
    }
}

/// `s` is `name` (trailing dots removed) or one of its ancestors: the
/// non-empty text after one of its dots.
pub open spec fn owned_by(name: Seq<char>, s: Seq<char>) -> bool {
    let t = strip_trailing_dots(name);
    ||| s == t
    ||| exists|p: int|
        0 <= p < t.len() && #[trigger] t[p] == '.' && s == t.subrange(p + 1, t.len() as int)
            && s.len() > 0
}

/// `s` is an owner name of the index or an ancestor of one (an empty
/// non-terminal).
pub open spec fn is_owner_name(bs: Seq<BucketView>, s: Seq<char>) -> bool {
    exists|i: int| 0 <= i < bs.len() && owned_by(#[trigger] bs[i].0, s)
}

/// The texts of `v`, as a set.
pub open spec fn names_set(v: Seq<String>) -> Set<Seq<char>> {
    v.map_values(|x: String| x@).to_set()
}

spec fn holds(v: Seq<String>, lo: int, s: Seq<char>) -> bool {
    exists|i: int| lo <= i < v.len() && #[trigger] v[i]@ == s
}

spec fn owned_in_prefix(bs: Seq<BucketView>, n: int, s: Seq<char>) -> bool {
    exists|j: int| 0 <= j < n && owned_by(#[trigger] bs[j].0, s)
}

spec fn suffix_owner(t: Seq<char>, p: int, s: Seq<char>) -> bool {
    ||| s == t
    ||| exists|q: int|
        0 <= q < p && #[trigger] t[q] == '.' && s == t.subrange(q + 1, t.len() as int) && s.len() > 0
}

/// The normalised name `name` exists in the index (as an owner or an
/// ancestor of one), or is the configured zone apex.
pub open spec fn name_exists_in(bs: Seq<BucketView>, name: Seq<char>, apex: Option<Seq<char>>) -> bool {
    ||| (apex is Some && name == normalize(apex->0))
    ||| is_owner_name(bs, name)
}

/// The bucket lookup of a query name and type as given: both parts of the
/// key are normalised first.
pub open spec fn raw(bs: Seq<BucketView>, name: Seq<char>, rtype: Seq<char>) -> Option<Seq<DnsRecord>> {
    lookup(bs, normalize(name), uppercase(rtype))
}

/// The normalised name `name` has a non-empty CNAME bucket.
pub open spec fn has_cname(bs: Seq<BucketView>, name: Seq<char>) -> bool {
    lookup(bs, name, "CNAME"@) is Some && lookup(bs, name, "CNAME"@)->0.len() > 0
}

/// The first CNAME record at the normalised name `name`.
pub open spec fn first_cname(bs: Seq<BucketView>, name: Seq<char>) -> DnsRecord {
    lookup(bs, name, "CNAME"@)->0[0]
}

/// The answer when no CNAME can be followed from `current`.
pub open spec fn dead_end(bs: Seq<BucketView>, apex: Option<Seq<char>>, current: Seq<char>, chain: Seq<DnsRecord>) -> Resolved {
    if chain.len() > 0 {
        Resolved::Found(chain)
    } else if name_exists_in(bs, current, apex) {
        Resolved::Nodata
    } else {
        Resolved::Miss
    }
}

/// Resolution from `current`, having followed `chain` through the names in
/// `visited`, with at most `fuel` names left to visit.
pub open spec fn resolve_steps(
    bs: Seq<BucketView>,
    apex: Option<Seq<char>>,
    upper: Seq<char>,
    current: Seq<char>,
    chain: Seq<DnsRecord>,
    visited: Set<Seq<char>>,
    fuel: nat,
) -> Resolved
    decreases fuel,
{
    if fuel == 0 || visited.contains(current) {
        Resolved::ServFail
    } else if upper == "ANY"@ {
        if has_cname(bs, current) {
            let c = first_cname(bs, current);
            resolve_steps(bs, apex, upper, normalize(c.value@), chain.push(c), visited.insert(current), (fuel - 1) as nat)
        } else if records_named(bs, current).len() > 0 {
            Resolved::Found(chain + records_named(bs, current))
        } else {
            dead_end(bs, apex, current, chain)
        }
    } else if lookup(bs, current, upper) is Some {
        Resolved::Found(chain + lookup(bs, current, upper)->0)
    } else if has_cname(bs, current) {
        let c = first_cname(bs, current);
        resolve_steps(bs, apex, upper, normalize(c.value@), chain.push(c), visited.insert(current), (fuel - 1) as nat)
    } else {
        dead_end(bs, apex, current, chain)
    }
}

/// The answer of the index with buckets `bs` for a query.
pub open spec fn resolution(bs: Seq<BucketView>, name: Seq<char>, rtype: Seq<char>, apex: Option<Seq<char>>) -> Resolved {
    resolve_steps(bs, apex, uppercase(rtype), normalize(name), Seq::empty(), Set::empty(), 11)
}

/// The buckets after inserting or replacing (by id) `r` under the key
/// `(n, t)`.
pub open spec fn upserted_at(bs: Seq<BucketView>, n: Seq<char>, t: Seq<char>, r: DnsRecord) -> Seq<BucketView> {
    if exists|i: int| 0 <= i < bs.len() && #[trigger] bs[i].0 == n && bs[i].1 == t {
        let i = choose|i: int| 0 <= i < bs.len() && #[trigger] bs[i].0 == n && bs[i].1 == t;
        bs.update(i, (n, t, drop_id(bs[i].2, r.id).push(r)))
    } else {
        bs.push((n, t, seq![r]))
    }
}

/// The buckets after inserting or replacing (by id) `r`.
pub open spec fn upserted(bs: Seq<BucketView>, r: DnsRecord) -> Seq<BucketView> {
    upserted_at(bs, normalize(r.name@), uppercase(r.record_type@), r)
}

/// The buckets after removing every record with `id`; buckets left empty
/// disappear.
pub open spec fn without_record(bs: Seq<BucketView>, id: i64) -> Seq<BucketView>
    decreases bs.len(),
{
    if bs.len() == 0 {
        Seq::empty()
    } else {
        let rest = without_record(bs.drop_last(), id);
        let kept = drop_id(bs.last().2, id);
        if kept.len() > 0 {
            rest.push((bs.last().0, bs.last().1, kept))
        } else {
            rest
        }
    }
}

/// The buckets after removing those named `name` (and, when `rtype` is
/// given, of that type).
pub open spec fn without_buckets(bs: Seq<BucketView>, name: Seq<char>, rtype: Option<Seq<char>>) -> Seq<BucketView>
    decreases bs.len(),
{
    if bs.len() == 0 {
        Seq::empty()
    } else {
        let rest = without_buckets(bs.drop_last(), name, rtype);
        let b = bs.last();
        if b.0 == name && (rtype is None || b.1 == rtype->0) {
            rest
        } else {
            rest.push(b)
        }
    }
}

/// The removal that `RecordIndex::remove` performs.
pub open spec fn removed(bs: Seq<BucketView>, name: Seq<char>, rtype: Option<Seq<char>>) -> Seq<BucketView> {
    match rtype {
        Some(t) => without_buckets(bs, normalize(name), Some(uppercase(t))),
        None => without_buckets(bs, normalize(name), None),
    }
}

/// No two buckets share a key, and no bucket is empty.
pub open spec fn buckets_wf(bs: Seq<BucketView>) -> bool {
    &&& forall|i: int, j: int|
        0 <= i < bs.len() && 0 <= j < bs.len() && i != j ==> (#[trigger] bs[i].0 != #[trigger] bs[j].0
            || bs[i].1 != bs[j].1)
    &&& forall|i: int| 0 <= i < bs.len() ==> #[trigger] bs[i].2.len() > 0
}

/// In-memory authoritative record index.
///
/// Keyed by `(lowercase_name, uppercase_rtype)`, names without trailing
/// dots — the same normalisation used by the DB layer. Kept coherent via
/// incremental updates on every CRUD mutation.
pub struct RecordIndex {
    buckets: Vec<Bucket>,
    /// Every owner name and each of its ancestors (empty non-terminals).
    owner_names: Vec<String>,
}

impl View for RecordIndex {
    type V = Seq<BucketView>;

    closed spec fn view(&self) -> Seq<BucketView> {
        buckets_view(self.buckets@)
    }
}

pub(crate) proof fn lemma_lookup_at(bs: Seq<BucketView>, i: int)
    requires
        buckets_wf(bs),
        0 <= i < bs.len(),
    ensures
        lookup(bs, bs[i].0, bs[i].1) == Some(bs[i].2),
{
    let j = choose|j: int| 0 <= j < bs.len() && #[trigger] bs[j].0 == bs[i].0 && bs[j].1 == bs[i].1;
    assert(j == i);
}

pub(crate) proof fn lemma_without_buckets_wf(bs: Seq<BucketView>, name: Seq<char>, rtype: Option<Seq<char>>)
    requires
        buckets_wf(bs),
    ensures
        buckets_wf(without_buckets(bs, name, rtype)),
        forall|k: BucketView| #[trigger] without_buckets(bs, name, rtype).contains(k) ==> bs.contains(k),
    decreases bs.len(),
{
    if bs.len() > 0 {
        let rest = bs.drop_last();
        assert(buckets_wf(rest)) by {
            assert forall|i: int, j: int|
                0 <= i < rest.len() && 0 <= j < rest.len() && i != j implies (#[trigger] rest[i].0 != #[trigger] rest[j].0
                    || rest[i].1 != rest[j].1) by {
                assert(rest[i] == bs[i] && rest[j] == bs[j]);
            }
            assert forall|i: int| 0 <= i < rest.len() implies #[trigger] rest[i].2.len() > 0 by {
                assert(rest[i] == bs[i]);
            }
        }
        lemma_without_buckets_wf(rest, name, rtype);
        let w = without_buckets(rest, name, rtype);
        let b = bs.last();
        assert forall|k: BucketView| #[trigger] without_buckets(bs, name, rtype).contains(k) implies bs.contains(k) by {
            if w.contains(k) {
                let j = choose|j: int| 0 <= j < rest.len() && rest[j] == k;
                assert(bs[j] == k);
            } else {
                assert(k == b);
                assert(bs[bs.len() - 1] == k);
            }
        }
        if !(b.0 == name && (rtype is None || b.1 == rtype->0)) {
            let r = w.push(b);
            assert forall|i: int, j: int|
                0 <= i < r.len() && 0 <= j < r.len() && i != j implies (#[trigger] r[i].0 != #[trigger] r[j].0 || r[i].1 != r[j].1) by {
                if i < w.len() && j < w.len() {
                    assert(r[i] == w[i] && r[j] == w[j]);
                } else if i < w.len() {
                    assert(w.contains(r[i]));
                    let a = choose|a: int| 0 <= a < rest.len() && rest[a] == r[i];
                    assert(bs[a] == r[i]);
                    assert(bs[bs.len() - 1] == r[j]);
                } else {
                    assert(w.contains(r[j]));
                    let a = choose|a: int| 0 <= a < rest.len() && rest[a] == r[j];
                    assert(bs[a] == r[j]);
                    assert(bs[bs.len() - 1] == r[i]);
                }
            }
            assert forall|i: int| 0 <= i < r.len() implies #[trigger] r[i].2.len() > 0 by {
                if i < w.len() {
                    assert(r[i] == w[i]);
                    assert(w.contains(w[i]));
                    let a = choose|a: int| 0 <= a < rest.len() && rest[a] == w[i];
                    assert(bs[a] == w[i]);
                }
            }
        }
    }
}

pub(crate) proof fn lemma_without_record_wf(bs: Seq<BucketView>, id: i64)
    requires
        buckets_wf(bs),
    ensures
        buckets_wf(without_record(bs, id)),
        forall|k: BucketView| #[trigger] without_record(bs, id).contains(k) ==> exists|j: int|
            0 <= j < bs.len() && bs[j].0 == k.0 && bs[j].1 == k.1,
    decreases bs.len(),
{
    if bs.len() > 0 {
        let rest = bs.drop_last();
        assert(buckets_wf(rest)) by {
            assert forall|i: int, j: int|
                0 <= i < rest.len() && 0 <= j < rest.len() && i != j implies (#[trigger] rest[i].0 != #[trigger] rest[j].0
                    || rest[i].1 != rest[j].1) by {
                assert(rest[i] == bs[i] && rest[j] == bs[j]);
            }
            assert forall|i: int| 0 <= i < rest.len() implies #[trigger] rest[i].2.len() > 0 by {
                assert(rest[i] == bs[i]);
            }
        }
        lemma_without_record_wf(rest, id);
        let w = without_record(rest, id);
        let b = bs.last();
        let kept = drop_id(b.2, id);
        assert forall|k: BucketView| #[trigger] without_record(bs, id).contains(k) implies exists|j: int|
            0 <= j < bs.len() && bs[j].0 == k.0 && bs[j].1 == k.1 by {
            if w.contains(k) {
                let j = choose|j: int| 0 <= j < rest.len() && rest[j].0 == k.0 && rest[j].1 == k.1;
                assert(bs[j] == rest[j]);
            } else {
                assert(bs[bs.len() - 1] == b);
            }
        }
        if kept.len() > 0 {
            let r = w.push((b.0, b.1, kept));
            assert forall|i: int, j: int|
                0 <= i < r.len() && 0 <= j < r.len() && i != j implies (#[trigger] r[i].0 != #[trigger] r[j].0 || r[i].1 != r[j].1) by {
                if i < w.len() && j < w.len() {
                    assert(r[i] == w[i] && r[j] == w[j]);
                } else if i < w.len() {
                    assert(w.contains(r[i]));
                    let a = choose|a: int| 0 <= a < rest.len() && rest[a].0 == r[i].0 && rest[a].1 == r[i].1;
                    assert(bs[a] == rest[a]);
                    assert(bs[bs.len() - 1] == b);
                } else {
                    assert(w.contains(r[j]));
                    let a = choose|a: int| 0 <= a < rest.len() && rest[a].0 == r[j].0 && rest[a].1 == r[j].1;
                    assert(bs[a] == rest[a]);
                    assert(bs[bs.len() - 1] == b);
                }
            }
            assert forall|i: int| 0 <= i < r.len() implies #[trigger] r[i].2.len() > 0 by {
                if i < w.len() {
                    assert(r[i] == w[i]);
                }
            }
        }
    }
}

impl RecordIndex {
    /// The index's internal consistency: distinct non-empty buckets, and
    /// `owner_names` holding exactly the owner names and their ancestors.
    pub closed spec fn wf(&self) -> bool {
        &&& buckets_wf(self@)
        &&& forall|s: Seq<char>|
            #![trigger is_owner_name(self@, s)]
            (exists|i: int| 0 <= i < self.owner_names@.len() && #[trigger] self.owner_names@[i]@ == s)
                <==> is_owner_name(self@, s)
    }

    /// A well-formed index has well-formed buckets: no key twice, no empty
    /// bucket. The bucket-level laws of this module apply to `self@`.
    pub proof fn lemma_wf_buckets(&self)
        requires
            self.wf(),
        ensures
            buckets_wf(self@),
    {
    }

    /// An empty index.
    pub fn new() -> (idx: Self)
        ensures
            idx.wf(),
            idx@ == Seq::<BucketView>::empty(),
    {
        let idx = RecordIndex { buckets: Vec::new(), owner_names: Vec::new() };
        assert(idx@ =~= Seq::<BucketView>::empty());
        idx
    }

    /// The canonical form of a record or query name.
    fn normalize_name(name: &str) -> (r: String)
        ensures
            r@ == normalize(name@),
    {
        normalize_name(name)
    }

    /// Recomputes the owner names (every bucket name and its ancestors).
    fn rebuild_owner_names(&mut self)
        ensures
            final(self).buckets == old(self).buckets,
            forall|s: Seq<char>|
                #![trigger is_owner_name(final(self)@, s)]
                (exists|i: int| 0 <= i < final(self).owner_names@.len() && #[trigger] final(self).owner_names@[i]@ == s)
                    <==> is_owner_name(final(self)@, s),
    {
        let mut owners: Vec<String> = Vec::new();
        let ghost bs = self@;
        for bi in 0..self.buckets.len()
            invariant
                bs == self@,
                forall|s: Seq<char>| #[trigger] holds(owners@, 0, s) <==> owned_in_prefix(bs, bi as int, s),
        {
            let trimmed = trim_trailing_dots(self.buckets[bi].name.as_str());
            let cs = chars_of(trimmed.as_str());
            let ghost t = cs@;
            let ghost before = owners@;
            owners.push(trimmed);
            proof {
                assert forall|s: Seq<char>| #[trigger] holds(owners@, before.len() as int, s) <==> suffix_owner(t, 0, s) by {
                    if s == t {
                        assert(owners@[before.len() as int]@ == s);
                    }
                }
            }
            let mut p: usize = 0;
            while p < cs.len()
                invariant
                    p <= cs.len(),
                    t == cs@,
                    t == strip_trailing_dots(bs[bi as int].0),
                    owners@.len() > before.len(),
                    forall|i: int| 0 <= i < before.len() ==> owners@[i] == before[i],
                    forall|s: Seq<char>| #[trigger] holds(owners@, before.len() as int, s) <==> suffix_owner(t, p as int, s),
                decreases cs.len() - p,
            {
                let ghost prev = owners@;
                if cs[p] == '.' && p + 1 < cs.len() {
                    let suffix = string_from_chars(&cs, p + 1, cs.len());
                    owners.push(suffix);
                }
                proof {
                    assert forall|s: Seq<char>| #[trigger] holds(owners@, before.len() as int, s) <==> suffix_owner(t, p + 1, s) by {
                        if holds(owners@, before.len() as int, s) {
                            let i = choose|i: int| before.len() <= i < owners@.len() && #[trigger] owners@[i]@ == s;
                            if i < prev.len() {
                                assert(holds(prev, before.len() as int, s));
                            } else {
                                assert(t[p as int] == '.');
                            }
                        }
                        if suffix_owner(t, p + 1, s) {
                            if suffix_owner(t, p as int, s) {
                                assert(holds(prev, before.len() as int, s));
                                let i = choose|i: int| before.len() <= i < prev.len() && #[trigger] prev[i]@ == s;
                                assert(owners@[i] == prev[i]);
                            } else {
                                assert(owners@[prev.len() as int]@ == s);
                            }
                        }
                    }
                }
                p = p + 1;
            }
            proof {
                assert forall|s: Seq<char>| #[trigger] holds(owners@, 0, s) <==> owned_in_prefix(bs, bi + 1, s) by {
                    if holds(owners@, 0, s) {
                        let i = choose|i: int| 0 <= i < owners@.len() && #[trigger] owners@[i]@ == s;
                        if i < before.len() {
                            assert(before[i]@ == s);
                            assert(holds(before, 0, s));
                            let j = choose|j: int| 0 <= j < bi && owned_by(#[trigger] bs[j].0, s);
                            assert(owned_in_prefix(bs, bi + 1, s));
                        } else {
                            assert(holds(owners@, before.len() as int, s));
                            assert(owned_by(bs[bi as int].0, s));
                        }
                    }
                    if owned_in_prefix(bs, bi + 1, s) {
                        let j = choose|j: int| 0 <= j < bi + 1 && owned_by(#[trigger] bs[j].0, s);
                        if j < bi {
                            assert(owned_in_prefix(bs, bi as int, s));
                            assert(holds(before, 0, s));
                            let i = choose|i: int| 0 <= i < before.len() && #[trigger] before[i]@ == s;
                            assert(owners@[i]@ == s);
                        } else {
                            assert(suffix_owner(t, cs.len() as int, s));
                            assert(holds(owners@, before.len() as int, s));
                            let i = choose|i: int| before.len() <= i < owners@.len() && #[trigger] owners@[i]@ == s;
                            assert(owners@[i]@ == s);
                        }
                    }
                }
            }
        }
        self.owner_names = owners;
        proof {
            assert forall|s: Seq<char>| #![trigger is_owner_name(self@, s)]
                (exists|i: int| 0 <= i < self.owner_names@.len() && #[trigger] self.owner_names@[i]@ == s)
                    <==> is_owner_name(self@, s) by {
                if exists|i: int| 0 <= i < self.owner_names@.len() && #[trigger] self.owner_names@[i]@ == s {
                    assert(holds(owners@, 0, s));
                    assert(owned_in_prefix(bs, bs.len() as int, s));
                }
                if is_owner_name(self@, s) {
                    assert(owned_in_prefix(bs, bs.len() as int, s));
                    assert(holds(owners@, 0, s));
                }
            }
        }
    }

    /// Position of the bucket `(name, rtype)`, both already normalised.
    fn find_bucket(&self, name: &String, rtype: &String) -> (r: Option<usize>)
        requires
            self.wf(),
        ensures
            match r {
                Some(i) => i < self@.len() && self@[i as int].0 == name@ && self@[i as int].1 == rtype@,
                None => forall|i: int| 0 <= i < self@.len() ==> !(#[trigger] self@[i].0 == name@ && self@[i].1 == rtype@),
            },
    {
        for i in 0..self.buckets.len()
            invariant
                forall|j: int| 0 <= j < i ==> !(#[trigger] self@[j].0 == name@ && self@[j].1 == rtype@),
        {
            if self.buckets[i].name == *name && self.buckets[i].rtype == *rtype {
                return Some(i);
            }
        }
        None
    }

    /// Inserts or updates a single record in the index.
    ///
    /// If a record with the same `id` already exists under the same
    /// `(name, rtype)` key it is replaced. This handles in-place updates
    /// where neither name nor type change.
    pub fn upsert(&mut self, record: DnsRecord)
        requires
            old(self).wf(),
        ensures
            final(self).wf(),
            final(self)@ == upserted(old(self)@, record),
    {
        let name = RecordIndex::normalize_name(record.name.as_str());
        let rtype = to_uppercase(record.record_type.as_str());
        let ghost bs = self@;
        let ghost r = record;
        match self.find_bucket(&name, &rtype) {
            Some(i) => {
                let mut records = without_id(self.buckets[i].records.as_slice(), record.id);
                records.push(record);
                let ghost nb = (name@, rtype@, records@);
                self.buckets.set(i, Bucket { name, rtype, records });
                proof {
                    assert(self@ =~= bs.update(i as int, nb));
                    let j = choose|j: int| 0 <= j < bs.len() && #[trigger] bs[j].0 == nb.0 && bs[j].1 == nb.1;
                    assert(j == i);
                    assert(buckets_wf(self@)) by {
                        let s = self@;
                        assert forall|a: int, b: int|
                            0 <= a < s.len() && 0 <= b < s.len() && a != b implies (#[trigger] s[a].0 != #[trigger] s[b].0
                                || s[a].1 != s[b].1) by {
                            assert(bs[a].0 != bs[b].0 || bs[a].1 != bs[b].1);
                        }
                    }
                }
            },
            None => {
                let ghost nb = (name@, rtype@, seq![record]);
                let mut records: Vec<DnsRecord> = Vec::new();
                records.push(record);
                self.buckets.push(Bucket { name, rtype, records });
                proof {
                    assert(self@ =~= bs.push(nb));
                    assert(buckets_wf(self@)) by {
                        let s = self@;
                        assert forall|a: int, b: int|
                            0 <= a < s.len() && 0 <= b < s.len() && a != b implies (#[trigger] s[a].0 != #[trigger] s[b].0
                                || s[a].1 != s[b].1) by {
                            if a < bs.len() && b < bs.len() {
                                assert(bs[a].0 != bs[b].0 || bs[a].1 != bs[b].1);
                            } else if a < bs.len() {
                                assert(!(bs[a].0 == name@ && bs[a].1 == rtype@));
                            } else {
                                assert(!(bs[b].0 == name@ && bs[b].1 == rtype@));
                            }
                        }
                        assert forall|a: int| 0 <= a < s.len() implies #[trigger] s[a].2.len() > 0 by {
                            if a < bs.len() {
                                assert(s[a] == bs[a]);
                            }
                        }
                    }
                }
            },
        }
        self.rebuild_owner_names();
    }

    /// Removes a record by its primary key, scanning all buckets.
    ///
    /// This is the correct invalidation primitive for updates and deletes
    /// because neither the old name nor the old type need to be known by the
    /// caller — the record is located purely by `id`.
    pub fn remove_by_id(&mut self, id: i64)
        requires
            old(self).wf(),
        ensures
            final(self).wf(),
            final(self)@ == without_record(old(self)@, id),
    {
        let ghost bs = self@;
        let mut kept_buckets: Vec<Bucket> = Vec::new();
        for i in 0..self.buckets.len()
            invariant
                bs == self@,
                buckets_view(kept_buckets@) == without_record(bs.take(i as int), id),
        {
            assert(bs.take(i + 1).drop_last() =~= bs.take(i as int));
            let kept = without_id(self.buckets[i].records.as_slice(), id);
            if kept.len() > 0 {
                let b = Bucket { name: self.buckets[i].name.clone(), rtype: self.buckets[i].rtype.clone(), records: kept };
                let ghost before = kept_buckets@;
                kept_buckets.push(b);
                assert(buckets_view(kept_buckets@) =~= buckets_view(before).push(b.view()));
            }
        }
        assert(bs.take(bs.len() as int) =~= bs);
        proof {
            lemma_without_record_wf(bs, id);
        }
        self.buckets = kept_buckets;
        self.rebuild_owner_names();
    }

    /// Removes records by name and optionally by type.
    ///
    /// - `rtype = None` removes all records for the name across every type.
    /// - `rtype = Some(t)` removes only records of that specific type.
    pub fn remove(&mut self, name: &str, rtype: Option<&str>)
        requires
            old(self).wf(),
        ensures
            final(self).wf(),
            final(self)@ == removed(old(self)@, name@, match rtype { Some(t) => Some(t@), None => None }),
    {
        let lower_name = RecordIndex::normalize_name(name);
        let upper: Option<String> = match rtype {
            Some(t) => Some(to_uppercase(t)),
            None => None,
        };
        let ghost bs = self@;
        let ghost up = match &upper { Some(u) => Some(u@), None => None::<Seq<char>> };
        let mut kept_buckets: Vec<Bucket> = Vec::new();
        let mut i: usize = 0;
        while i < self.buckets.len()
            invariant
                i <= self.buckets.len(),
                bs == self@,
                buckets_view(kept_buckets@) == without_buckets(bs.take(i as int), lower_name@, up),
                match &upper {
                    Some(u) => up == Some(u@),
                    None => up is None,
                },
            decreases self.buckets.len() - i,
        {
            assert(bs.take(i + 1).drop_last() =~= bs.take(i as int));
            let matches_type = match &upper {
                Some(u) => self.buckets[i].rtype == *u,
                None => true,
            };
            assert(bs[i as int] == self.buckets@[i as int].view());
            assert(bs.take(i + 1).last() == bs[i as int]);
            if !(self.buckets[i].name == lower_name && matches_type) {
                let mut copy: Vec<DnsRecord> = Vec::new();
                extend_cloned(&mut copy, self.buckets[i].records.as_slice());
                let b = Bucket { name: self.buckets[i].name.clone(), rtype: self.buckets[i].rtype.clone(), records: copy };
                let ghost before = kept_buckets@;
                kept_buckets.push(b);
                assert(buckets_view(kept_buckets@) =~= buckets_view(before).push(b.view()));
                assert(b.view() == bs.take(i + 1).last());
            } else {
                assert(self.buckets@[i as int].name@ == lower_name@);
            }
            i = i + 1;
        }
        assert(bs.take(bs.len() as int) =~= bs);
        proof {
            lemma_without_buckets_wf(bs, lower_name@, up);
        }
        self.buckets = kept_buckets;
        self.rebuild_owner_names();
    }

    /// Flat lookup of an already normalised name and type — the records of
    /// exactly that `(name, rtype)` key, without CNAME chain traversal.
    fn lookup_key(&self, name: &String, rtype: &String) -> (r: Option<&[DnsRecord]>)
        requires
            self.wf(),
        ensures
            match r {
                Some(s) => lookup(self@, name@, rtype@) == Some(s@),
                None => lookup(self@, name@, rtype@) is None,
            },
    {
        match self.find_bucket(name, rtype) {
            Some(i) => {
                proof {
                    lemma_lookup_at(self@, i as int);
                }
                Some(self.buckets[i].records.as_slice())
            },
            None => None,
        }
    }

    /// Copies of every record stored under `name` (already normalised).
    fn records_named(&self, name: &String) -> (r: Vec<DnsRecord>)
        ensures
            r@ == records_named(self@, name@),
    {
        let mut out: Vec<DnsRecord> = Vec::new();
        let ghost bs = self@;
        for i in 0..self.buckets.len()
            invariant
                bs == self@,
                out@ == records_named(bs.take(i as int), name@),
        {
            assert(bs.take(i + 1).drop_last() =~= bs.take(i as int));
            if self.buckets[i].name == *name {
                extend_cloned(&mut out, self.buckets[i].records.as_slice());
            }
        }
        assert(bs.take(bs.len() as int) =~= bs);
        out
    }

    /// Returns `true` if any record exists for the normalised `lower`
    /// regardless of type, or if it is the configured authoritative zone apex.
    fn name_exists(&self, lower: &String, zone_apex: Option<&str>) -> (b: bool)
        requires
            self.wf(),
        ensures
            b == name_exists_in(self@, lower@, match zone_apex { Some(a) => Some(a@), None => None }),
    {
        if let Some(apex) = zone_apex {
            let a = RecordIndex::normalize_name(apex);
            if same_text(lower.as_str(), a.as_str()) {
                return true;
            }
        }
        for i in 0..self.owner_names.len()
            invariant
                self.wf(),
                forall|j: int| 0 <= j < i ==> self.owner_names@[j]@ != lower@,
        {
            if self.owner_names[i] == *lower {
                assert(self.owner_names@[i as int]@ == lower@);
                assert(is_owner_name(self@, lower@));
                return true;
            }
        }
        assert(!is_owner_name(self@, lower@));
        false
    }

    /// CNAME-chain-aware authoritative lookup.
    ///
    /// Returns:
    /// - [`IndexResolution::Found`] — CNAME chain prepended, target records
    ///   appended; or the chain alone when its target is not in the index.
    /// - [`IndexResolution::Nodata`] — name exists (or is the zone apex)
    ///   but has no records of `rtype_str`.
    /// - [`IndexResolution::Miss`] — name is not in the index; caller falls through.
    /// - [`IndexResolution::ServFail`] — CNAME loop, or more than 10 hops.
    ///
    /// `ANY` queries return every record at the final name of the chain.
    pub fn resolve_authoritative(&self, name: &str, rtype_str: &str, zone_apex: Option<&str>) -> (r: IndexResolution)
        requires
            self.wf(),
        ensures
            r@ == resolution(self@, name@, rtype_str@, match zone_apex { Some(a) => Some(a@), None => None }),
    {
        let ghost bs = self@;
        let ghost apex = match zone_apex { Some(a) => Some(a@), None => None::<Seq<char>> };
        let upper = to_uppercase(rtype_str);
        let is_any = same_text(upper.as_str(), "ANY");
        let cname_type = "CNAME".to_owned();
        let mut current = RecordIndex::normalize_name(name);
        let mut chain: Vec<DnsRecord> = Vec::new();
        let mut visited: Vec<String> = Vec::new();
        let ghost target = resolution(bs, name@, rtype_str@, apex);
        let mut step: u8 = 0;
        assert(names_set(visited@) =~= Set::<Seq<char>>::empty());
        while step <= 10
            invariant
                bs == self@,
                self.wf(),
                step <= 11,
                is_any == (upper@ == "ANY"@),
                cname_type@ == "CNAME"@,
                upper@ == uppercase(rtype_str@),
                apex == match zone_apex { Some(a) => Some(a@), None => None::<Seq<char>> },
                target == resolution(bs, name@, rtype_str@, apex),
                resolve_steps(bs, apex, upper@, current@, chain@, names_set(visited@), (11 - step) as nat) == target,
            decreases 11 - step,
        {
            let ghost vis = names_set(visited@);
            let mut seen = false;
            for j in 0..visited.len()
                invariant
                    seen == exists|k: int| 0 <= k < j && #[trigger] visited@[k]@ == current@,
            {
                if visited[j] == current {
                    seen = true;
                }
            }
            if seen {
                proof {
                    let k = choose|k: int| 0 <= k < visited@.len() && #[trigger] visited@[k]@ == current@;
                    assert(visited@.map_values(|v: String| v@)[k] == current@);
                    assert(visited@.map_values(|v: String| v@).contains(current@));
                    assert(vis.contains(current@));
                }
                return IndexResolution::ServFail;
            }
            assert(!vis.contains(current@));
            let ghost old_visited = visited@;
            visited.push(current.clone());
            assert(names_set(visited@) =~= vis.insert(current@)) by {
                let a = old_visited.map_values(|v: String| v@);
                let b = visited@.map_values(|v: String| v@);
                assert(b =~= a.push(current@));
                assert forall|x: Seq<char>| b.contains(x) <==> a.contains(x) || x == current@ by {
                    if b.contains(x) {
                        let k = choose|k: int| 0 <= k < b.len() && b[k] == x;
                        if k < a.len() {
                            assert(a[k] == x);
                        }
                    }
                    if a.contains(x) {
                        let k = choose|k: int| 0 <= k < a.len() && a[k] == x;
                        assert(b[k] == x);
                    }
                    if x == current@ {
                        assert(b[a.len() as int] == x);
                    }
                }
            }
            if is_any {
                let cname = self.lookup_key(&current, &cname_type);
                match cname {
                    Some(cs) if cs.len() > 0 => {
                        let c = cs[0].clone();
                        current = RecordIndex::normalize_name(c.value.as_str());
                        chain.push(c);
                        step = step + 1;
                        continue;
                    },
                    _ => {
                        let all = self.records_named(&current);
                        if all.len() > 0 {
                            let mut result = chain;
                            let mut all = all;
                            let ghost c0 = result@;
                            let ghost a0 = all@;
                            result.append(&mut all);
                            assert(result@ == c0 + a0);
                            assert(a0 == records_named(bs, current@));
                            assert(!has_cname(bs, current@));
                            return IndexResolution::Found(result);
                        }
                        if chain.len() > 0 {
                            return IndexResolution::Found(chain);
                        }
                        return if self.name_exists(&current, zone_apex) {
                            IndexResolution::Nodata
                        } else {
                            IndexResolution::Miss
                        };
                    },
                }
            }
            if let Some(target_records) = self.lookup_key(&current, &upper) {
                let mut result = chain;
                extend_cloned(&mut result, target_records);
                return IndexResolution::Found(result);
            }
            let cname = self.lookup_key(&current, &cname_type);
            match cname {
                Some(cs) if cs.len() > 0 => {
                    let c = cs[0].clone();
                    current = RecordIndex::normalize_name(c.value.as_str());
                    chain.push(c);
                },
                _ => {
                    if chain.len() > 0 {
                        return IndexResolution::Found(chain);
                    }
                    return if self.name_exists(&current, zone_apex) {
                        IndexResolution::Nodata
                    } else {
                        IndexResolution::Miss
                    };
                },
            }
            step = step + 1;
        }
        IndexResolution::ServFail
    }
}

impl Default for RecordIndex {
    fn default() -> (r: Self)
        ensures
            r.wf(),
            r@ == Seq::<BucketView>::empty(),
    {
        RecordIndex::new()
    }
}


/// Read after write: once a record is upserted, a raw lookup of its own name
/// and type yields a bucket whose last record is that record, and which
/// holds no other record with the same id.
pub proof fn lemma_upsert_then_lookup(bs: Seq<BucketView>, r: DnsRecord)
    requires
        buckets_wf(bs),
    ensures
        raw(upserted(bs, r), r.name@, r.record_type@) matches Some(found) && found.last() == r
            && found.drop_last() == drop_id(found.drop_last(), r.id),
{
    let n = normalize(r.name@);
    let t = uppercase(r.record_type@);
    let after = upserted(bs, r);
    if exists|i: int| 0 <= i < bs.len() && #[trigger] bs[i].0 == n && bs[i].1 == t {
        let i = choose|i: int| 0 <= i < bs.len() && #[trigger] bs[i].0 == n && bs[i].1 == t;
        let b = drop_id(bs[i].2, r.id);
        assert(after == bs.update(i, (n, t, b.push(r))));
        assert(after[i].0 == n && after[i].1 == t);
        let j = choose|j: int| 0 <= j < after.len() && #[trigger] after[j].0 == n && after[j].1 == t;
        if j != i {
            assert(after[j] == bs[j]);
        }
        assert(b.push(r).drop_last() == b);
        lemma_drop_id_twice(bs[i].2, r.id);
    } else {
        assert(after == bs.push((n, t, seq![r])));
        assert(after[bs.len() as int].0 == n);
        let j = choose|j: int| 0 <= j < after.len() && #[trigger] after[j].0 == n && after[j].1 == t;
        if j != bs.len() {
            assert(after[j] == bs[j]);
        }
        assert(seq![r].drop_last() =~= Seq::<DnsRecord>::empty());
        assert(drop_id(Seq::<DnsRecord>::empty(), r.id) =~= Seq::<DnsRecord>::empty());
    }
}

/// Dropping an id twice is dropping it once.
pub proof fn lemma_drop_id_twice(s: Seq<DnsRecord>, id: i64)
    ensures
        drop_id(drop_id(s, id), id) == drop_id(s, id),
    decreases s.len(),
{
    if s.len() > 0 {
        lemma_drop_id_twice(s.drop_last(), id);
        if s.last().id != id {
            assert(drop_id(s, id).drop_last() == drop_id(s.drop_last(), id));
        }
    }
}

/// A record with id `id` is nowhere once `id` is dropped.
proof fn lemma_drop_id_gone(s: Seq<DnsRecord>, id: i64)
    ensures
        forall|k: int| 0 <= k < drop_id(s, id).len() ==> (#[trigger] drop_id(s, id)[k]).id != id,
    decreases s.len(),
{
    if s.len() > 0 {
        lemma_drop_id_gone(s.drop_last(), id);
        if s.last().id != id {
            let d = drop_id(s, id);
            assert forall|k: int| 0 <= k < d.len() implies (#[trigger] d[k]).id != id by {
                if k < d.len() - 1 {
                    assert(d[k] == drop_id(s.drop_last(), id)[k]);
                }
            }
        }
    }
}

/// Removing by id removes every record with that id: no bucket left holds one.
pub proof fn lemma_remove_by_id_removes(bs: Seq<BucketView>, id: i64)
    ensures
        forall|i: int, k: int|
            0 <= i < without_record(bs, id).len() && 0 <= k < without_record(bs, id)[i].2.len()
                ==> (#[trigger] without_record(bs, id)[i].2[k]).id != id,
    decreases bs.len(),
{
    if bs.len() > 0 {
        lemma_remove_by_id_removes(bs.drop_last(), id);
        lemma_drop_id_gone(bs.last().2, id);
        let w = without_record(bs, id);
        let rest = without_record(bs.drop_last(), id);
        assert forall|i: int, k: int| 0 <= i < w.len() && 0 <= k < w[i].2.len() implies (#[trigger] w[i].2[k]).id
            != id by {
            if i < rest.len() {
                assert(w[i] == rest[i]);
                assert(rest[i].2[k] == w[i].2[k]);
            }
        }
    }
}

/// Removing one name and type leaves every other bucket as it was: a lookup
/// of another (name, type) gives what it gave before.
pub proof fn lemma_remove_keeps_others(bs: Seq<BucketView>, name: Seq<char>, rtype: Seq<char>, n2: Seq<char>, t2: Seq<char>)
    requires
        buckets_wf(bs),
        !(n2 == normalize(name) && t2 == uppercase(rtype)),
    ensures
        lookup(removed(bs, name, Some(rtype)), n2, t2) == lookup(bs, n2, t2),
{
    lemma_without_buckets_lookup(bs, normalize(name), Some(uppercase(rtype)), n2, t2);
}

proof fn lemma_wf_prefix(s: Seq<BucketView>, b: BucketView)
    requires
        buckets_wf(s.push(b)),
    ensures
        buckets_wf(s),
{
    let t = s.push(b);
    assert forall|i: int, j: int| 0 <= i < s.len() && 0 <= j < s.len() && i != j implies (#[trigger] s[i].0
        != #[trigger] s[j].0 || s[i].1 != s[j].1) by {
        assert(t[i] == s[i] && t[j] == s[j]);
    }
    assert forall|i: int| 0 <= i < s.len() implies #[trigger] s[i].2.len() > 0 by {
        assert(t[i] == s[i]);
    }
}

/// A lookup after a bucket is appended.
proof fn lemma_lookup_push(s: Seq<BucketView>, b: BucketView, n: Seq<char>, t: Seq<char>)
    requires
        buckets_wf(s.push(b)),
    ensures
        lookup(s.push(b), n, t) == if b.0 == n && b.1 == t {
            Some(b.2)
        } else {
            lookup(s, n, t)
        },
{
    let u = s.push(b);
    lemma_wf_prefix(s, b);
    if b.0 == n && b.1 == t {
        lemma_lookup_at(u, s.len() as int);
    } else if exists|i: int| 0 <= i < u.len() && #[trigger] u[i].0 == n && u[i].1 == t {
        let i = choose|i: int| 0 <= i < u.len() && #[trigger] u[i].0 == n && u[i].1 == t;
        assert(i < s.len());
        assert(u[i] == s[i]);
        lemma_lookup_at(u, i);
        lemma_lookup_at(s, i);
    } else {
        assert forall|i: int| 0 <= i < s.len() implies !(#[trigger] s[i].0 == n && s[i].1 == t) by {
            assert(u[i] == s[i]);
        }
    }
}

/// A lookup after the bucket at `i` is replaced by one with the same key.
proof fn lemma_lookup_update(s: Seq<BucketView>, i: int, nb: BucketView, n: Seq<char>, t: Seq<char>)
    requires
        buckets_wf(s),
        buckets_wf(s.update(i, nb)),
        0 <= i < s.len(),
        nb.0 == s[i].0 && nb.1 == s[i].1,
    ensures
        lookup(s.update(i, nb), n, t) == if nb.0 == n && nb.1 == t {
            Some(nb.2)
        } else {
            lookup(s, n, t)
        },
{
    let u = s.update(i, nb);
    if nb.0 == n && nb.1 == t {
        lemma_lookup_at(u, i);
    } else if exists|j: int| 0 <= j < u.len() && #[trigger] u[j].0 == n && u[j].1 == t {
        let j = choose|j: int| 0 <= j < u.len() && #[trigger] u[j].0 == n && u[j].1 == t;
        assert(j != i);
        assert(u[j] == s[j]);
        lemma_lookup_at(u, j);
        lemma_lookup_at(s, j);
    } else {
        assert forall|j: int| 0 <= j < s.len() implies !(#[trigger] s[j].0 == n && s[j].1 == t) by {
            if j != i {
                assert(u[j] == s[j]);
            }
        }
    }
}

proof fn lemma_without_buckets_lookup(
    bs: Seq<BucketView>,
    n: Seq<char>,
    rt: Option<Seq<char>>,
    n2: Seq<char>,
    t2: Seq<char>,
)
    requires
        buckets_wf(bs),
    ensures
        lookup(without_buckets(bs, n, rt), n2, t2) == if n2 == n && (rt is None || t2 == rt->0) {
            None
        } else {
            lookup(bs, n2, t2)
        },
    decreases bs.len(),
{
    if bs.len() == 0 {
        assert(without_buckets(bs, n, rt) =~= Seq::<BucketView>::empty());
    } else {
        let p = bs.drop_last();
        let b = bs.last();
        assert(bs == p.push(b));
        lemma_wf_prefix(p, b);
        lemma_without_buckets_lookup(p, n, rt, n2, t2);
        lemma_without_buckets_wf(bs, n, rt);
        lemma_lookup_push(p, b, n2, t2);
        let rest = without_buckets(p, n, rt);
        if !(b.0 == n && (rt is None || b.1 == rt->0)) {
            lemma_lookup_push(rest, b, n2, t2);
        }
    }
}

/// Removing `name` (of one type, or of every type) removes exactly those
/// keys: a lookup of any other key gives what it gave before.
pub proof fn lemma_remove_lookups(
    bs: Seq<BucketView>,
    name: Seq<char>,
    rtype: Option<Seq<char>>,
    n2: Seq<char>,
    t2: Seq<char>,
)
    requires
        buckets_wf(bs),
    ensures
        lookup(removed(bs, name, rtype), n2, t2) == if n2 == normalize(name) && (match rtype {
            Some(t) => t2 == uppercase(t),
            None => true,
        }) {
            None
        } else {
            lookup(bs, n2, t2)
        },
{
    match rtype {
        Some(t) => lemma_without_buckets_lookup(bs, normalize(name), Some(uppercase(t)), n2, t2),
        None => lemma_without_buckets_lookup(bs, normalize(name), None, n2, t2),
    }
}

/// Removing by id filters each key's records: the records with `id` are
/// gone, the others keep their order, and a key left without records
/// disappears.
pub proof fn lemma_remove_by_id_lookups(bs: Seq<BucketView>, id: i64, n: Seq<char>, t: Seq<char>)
    requires
        buckets_wf(bs),
    ensures
        lookup(without_record(bs, id), n, t) == match lookup(bs, n, t) {
            Some(b) => if drop_id(b, id).len() > 0 {
                Some(drop_id(b, id))
            } else {
                None
            },
            None => None,
        },
    decreases bs.len(),
{
    if bs.len() == 0 {
        assert(without_record(bs, id) =~= Seq::<BucketView>::empty());
    } else {
        let p = bs.drop_last();
        let b = bs.last();
        assert(bs == p.push(b));
        lemma_wf_prefix(p, b);
        lemma_remove_by_id_lookups(p, id, n, t);
        lemma_without_record_wf(bs, id);
        lemma_lookup_push(p, b, n, t);
        let rest = without_record(p, id);
        let kept = drop_id(b.2, id);
        if b.0 == n && b.1 == t {
            assert(lookup(p, n, t) is None) by {
                if exists|i: int| 0 <= i < p.len() && #[trigger] p[i].0 == n && p[i].1 == t {
                    let i = choose|i: int| 0 <= i < p.len() && #[trigger] p[i].0 == n && p[i].1 == t;
                    assert(bs[i] == p[i]);
                    assert(bs[bs.len() - 1] == b);
                }
            }
        }
        if kept.len() > 0 {
            lemma_lookup_push(rest, (b.0, b.1, kept), n, t);
        }
    }
}

/// Upserting `r` under key (`n`, `t`): the key's records are its former
/// records without `r.id`, then `r`; every other key keeps its records.
proof fn lemma_upserted_at_lookups(bs: Seq<BucketView>, n: Seq<char>, t: Seq<char>, r: DnsRecord, n2: Seq<char>, t2: Seq<char>)
    requires
        buckets_wf(bs),
    ensures
        buckets_wf(upserted_at(bs, n, t, r)),
        lookup(upserted_at(bs, n, t, r), n2, t2) == if n2 == n && t2 == t {
            Some(
                match lookup(bs, n, t) {
                    Some(b) => drop_id(b, r.id),
                    None => Seq::<DnsRecord>::empty(),
                }.push(r),
            )
        } else {
            lookup(bs, n2, t2)
        },
{
    if exists|i: int| 0 <= i < bs.len() && #[trigger] bs[i].0 == n && bs[i].1 == t {
        let i = choose|i: int| 0 <= i < bs.len() && #[trigger] bs[i].0 == n && bs[i].1 == t;
        let nb = (n, t, drop_id(bs[i].2, r.id).push(r));
        let u = bs.update(i, nb);
        assert(upserted_at(bs, n, t, r) == u);
        assert(buckets_wf(u)) by {
            assert forall|a: int, c: int| 0 <= a < u.len() && 0 <= c < u.len() && a != c implies (#[trigger] u[a].0
                != #[trigger] u[c].0 || u[a].1 != u[c].1) by {
                assert(bs[a].0 != bs[c].0 || bs[a].1 != bs[c].1);
            }
        }
        lemma_lookup_at(bs, i);
        lemma_lookup_update(bs, i, nb, n2, t2);
    } else {
        let nb = (n, t, seq![r]);
        let u = bs.push(nb);
        assert(upserted_at(bs, n, t, r) == u);
        assert(buckets_wf(u)) by {
            assert forall|a: int, c: int| 0 <= a < u.len() && 0 <= c < u.len() && a != c implies (#[trigger] u[a].0
                != #[trigger] u[c].0 || u[a].1 != u[c].1) by {
                if a < bs.len() && c < bs.len() {
                    assert(bs[a].0 != bs[c].0 || bs[a].1 != bs[c].1);
                } else if a < bs.len() {
                    assert(!(bs[a].0 == n && bs[a].1 == t));
                } else {
                    assert(!(bs[c].0 == n && bs[c].1 == t));
                }
            }
            assert forall|a: int| 0 <= a < u.len() implies #[trigger] u[a].2.len() > 0 by {
                if a < bs.len() {
                    assert(u[a] == bs[a]);
                }
            }
        }
        assert(Seq::<DnsRecord>::empty().push(r) =~= seq![r]);
        lemma_lookup_push(bs, nb, n2, t2);
    }
}

/// Upsert per key: the records under the record's own (normalised name,
/// uppercased type) become the former ones without its id, followed by the
/// record; every other key keeps its records.
pub proof fn lemma_upsert_lookups(bs: Seq<BucketView>, r: DnsRecord, n2: Seq<char>, t2: Seq<char>)
    requires
        buckets_wf(bs),
    ensures
        lookup(upserted(bs, r), n2, t2) == if n2 == normalize(r.name@) && t2 == uppercase(r.record_type@) {
            Some(
                match lookup(bs, n2, t2) {
                    Some(b) => drop_id(b, r.id),
                    None => Seq::<DnsRecord>::empty(),
                }.push(r),
            )
        } else {
            lookup(bs, n2, t2)
        },
{
    lemma_upserted_at_lookups(bs, normalize(r.name@), uppercase(r.record_type@), r, n2, t2);
}

proof fn lemma_drop_absent_id(s: Seq<DnsRecord>, id: i64)
    requires
        forall|k: int| 0 <= k < s.len() ==> (#[trigger] s[k]).id != id,
    ensures
        drop_id(s, id) == s,
    decreases s.len(),
{
    if s.len() > 0 {
        let p = s.drop_last();
        assert forall|k: int| 0 <= k < p.len() implies (#[trigger] p[k]).id != id by {
            assert(p[k] == s[k]);
        }
        lemma_drop_absent_id(p, id);
        assert(s.last() == s[s.len() - 1]);
        assert(p.push(s.last()) =~= s);
    }
}

/// Removing `id` from buckets `u` gives `bs` when each bucket of `u`, without
/// `id`, is the non-empty bucket of `bs` at the same place.
proof fn lemma_without_record_to(u: Seq<BucketView>, bs: Seq<BucketView>, id: i64)
    requires
        u.len() == bs.len(),
        forall|j: int|
            0 <= j < u.len() ==> #[trigger] u[j].0 == bs[j].0 && u[j].1 == bs[j].1 && drop_id(u[j].2, id)
                == bs[j].2 && bs[j].2.len() > 0,
    ensures
        without_record(u, id) == bs,
    decreases u.len(),
{
    if u.len() > 0 {
        let up = u.drop_last();
        let bp = bs.drop_last();
        assert forall|j: int| 0 <= j < up.len() implies #[trigger] up[j].0 == bp[j].0 && up[j].1 == bp[j].1
            && drop_id(up[j].2, id) == bp[j].2 && bp[j].2.len() > 0 by {
            assert(up[j] == u[j] && bp[j] == bs[j]);
        }
        lemma_without_record_to(up, bp, id);
        assert(u.last() == u[u.len() - 1] && bs.last() == bs[bs.len() - 1]);
        assert(bp.push((bs.last().0, bs.last().1, bs.last().2)) =~= bs);
    }
}

/// Round trip: upserting a record whose id the index does not hold, then
/// removing that id, gives back the same index.
pub proof fn lemma_upsert_then_remove_by_id(bs: Seq<BucketView>, r: DnsRecord)
    requires
        buckets_wf(bs),
        forall|i: int, k: int| 0 <= i < bs.len() && 0 <= k < bs[i].2.len() ==> (#[trigger] bs[i].2[k]).id != r.id,
    ensures
        without_record(upserted(bs, r), r.id) == bs,
{
    let n = normalize(r.name@);
    let t = uppercase(r.record_type@);
    let id = r.id;
    assert forall|j: int| 0 <= j < bs.len() implies drop_id(#[trigger] bs[j].2, id) == bs[j].2 by {
        assert forall|k: int| 0 <= k < bs[j].2.len() implies (#[trigger] bs[j].2[k]).id != id by {
            assert(bs[j].2[k].id != id);
        }
        lemma_drop_absent_id(bs[j].2, id);
    }
    if exists|i: int| 0 <= i < bs.len() && #[trigger] bs[i].0 == n && bs[i].1 == t {
        let i = choose|i: int| 0 <= i < bs.len() && #[trigger] bs[i].0 == n && bs[i].1 == t;
        let d = drop_id(bs[i].2, id);
        let u = bs.update(i, (n, t, d.push(r)));
        assert(upserted(bs, r) == u);
        assert(d.push(r).drop_last() =~= d);
        assert(drop_id(d.push(r), id) == drop_id(d, id));
        lemma_drop_id_twice(bs[i].2, id);
        assert forall|j: int| 0 <= j < u.len() implies #[trigger] u[j].0 == bs[j].0 && u[j].1 == bs[j].1
            && drop_id(u[j].2, id) == bs[j].2 && bs[j].2.len() > 0 by {
            if j != i {
                assert(u[j] == bs[j]);
            }
        }
        lemma_without_record_to(u, bs, id);
    } else {
        let u = bs.push((n, t, seq![r]));
        assert(upserted(bs, r) == u);
        assert(seq![r].drop_last() =~= Seq::<DnsRecord>::empty());
        assert(seq![r].last() == r);
        assert(drop_id(Seq::<DnsRecord>::empty(), id) =~= Seq::<DnsRecord>::empty());
        assert(drop_id(seq![r], id) == drop_id(seq![r].drop_last(), id));
        assert(drop_id(seq![r], id) =~= Seq::<DnsRecord>::empty());
        assert(u.drop_last() =~= bs);
        assert forall|j: int| 0 <= j < bs.len() implies #[trigger] bs[j].0 == bs[j].0 && bs[j].1 == bs[j].1
            && drop_id(bs[j].2, id) == bs[j].2 && bs[j].2.len() > 0 by {
        }
        lemma_without_record_to(bs, bs, id);
    }
}

/// Where a query of type `upper` moves on from name `c`: to the target of
/// its first CNAME, unless the name answers the query itself (it holds
/// records of the type, for a type other than `ANY`) or holds no CNAME.
pub open spec fn next_name(bs: Seq<BucketView>, upper: Seq<char>, c: Seq<char>) -> Option<Seq<char>> {
    if has_cname(bs, c) && (upper == "ANY"@ || lookup(bs, c, upper) is None) {
        Some(normalize(first_cname(bs, c).value@))
    } else {
        None
    }
}

/// The names a query of type `upper` visits from `c`, making at most `k`
/// moves.
pub open spec fn walk_names(bs: Seq<BucketView>, upper: Seq<char>, c: Seq<char>, k: nat) -> Seq<Seq<char>>
    decreases k,
{
    if k == 0 {
        seq![c]
    } else {
        match next_name(bs, upper, c) {
            Some(t) => seq![c] + walk_names(bs, upper, t, (k - 1) as nat),
            None => seq![c],
        }
    }
}

/// Some name occurs twice in `w`.
pub open spec fn repeats(w: Seq<Seq<char>>) -> bool {
    exists|i: int, j: int| 0 <= i < j < w.len() && #[trigger] w[i] == #[trigger] w[j]
}

spec fn meets_visited(w: Seq<Seq<char>>, visited: Set<Seq<char>>) -> bool {
    exists|j: int| 0 <= j < w.len() && visited.contains(#[trigger] w[j])
}

proof fn lemma_steps_servfail(
    bs: Seq<BucketView>,
    apex: Option<Seq<char>>,
    upper: Seq<char>,
    c: Seq<char>,
    chain: Seq<DnsRecord>,
    visited: Set<Seq<char>>,
    fuel: nat,
)
    ensures
        (resolve_steps(bs, apex, upper, c, chain, visited, fuel) == Resolved::ServFail) <==> ({
            let w = walk_names(bs, upper, c, fuel);
            w.len() == fuel + 1 || repeats(w) || meets_visited(w, visited)
        }),
    decreases fuel,
{
    let w = walk_names(bs, upper, c, fuel);
    if fuel == 0 {
        assert(w.len() == 1);
    } else if visited.contains(c) {
        assert(w[0] == c);
        assert(meets_visited(w, visited));
    } else {
        match next_name(bs, upper, c) {
            None => {
                assert(w =~= seq![c]);
                assert(!repeats(w));
                assert(!meets_visited(w, visited));
            },
            Some(t) => {
                let v2 = visited.insert(c);
                let c1 = first_cname(bs, c);
                lemma_steps_servfail(bs, apex, upper, t, chain.push(c1), v2, (fuel - 1) as nat);
                let w2 = walk_names(bs, upper, t, (fuel - 1) as nat);
                assert(w == seq![c] + w2);
                assert(forall|j: int| 0 <= j < w2.len() ==> #[trigger] w2[j] == w[j + 1]);
                assert(w[0] == c);
                assert((repeats(w) || meets_visited(w, visited)) <==> (repeats(w2) || meets_visited(w2, v2))) by {
                    if repeats(w) {
                        let (i, j) = choose|i: int, j: int| 0 <= i < j < w.len() && #[trigger] w[i] == #[trigger] w[j];
                        if i == 0 {
                            assert(v2.contains(w2[j - 1]));
                        } else {
                            assert(w2[i - 1] == w2[j - 1]);
                        }
                    }
                    if meets_visited(w, visited) {
                        let j = choose|j: int| 0 <= j < w.len() && visited.contains(#[trigger] w[j]);
                        assert(j > 0);
                        assert(v2.contains(w2[j - 1]));
                    }
                    if repeats(w2) {
                        let (i, j) = choose|i: int, j: int| 0 <= i < j < w2.len() && #[trigger] w2[i] == #[trigger] w2[j];
                        assert(w[i + 1] == w[j + 1]);
                    }
                    if meets_visited(w2, v2) {
                        let j = choose|j: int| 0 <= j < w2.len() && v2.contains(#[trigger] w2[j]);
                        if w2[j] == c {
                            assert(w[0] == w[j + 1]);
                        } else {
                            assert(visited.contains(w[j + 1]));
                        }
                    }
                }
            },
        }
    }
}

/// Loop detection, both ways: a query is answered SERVFAIL exactly when the
/// walk along first CNAMEs from the queried name visits some name twice or
/// makes more than ten moves. A walk without repeats of at most ten moves
/// never gives SERVFAIL.
pub proof fn lemma_servfail_iff_loop_or_depth(bs: Seq<BucketView>, name: Seq<char>, rtype: Seq<char>, apex: Option<Seq<char>>)
    ensures
        (resolution(bs, name, rtype, apex) == Resolved::ServFail) <==> ({
            let w = walk_names(bs, uppercase(rtype), normalize(name), 11);
            repeats(w) || w.len() > 11
        }),
{
    lemma_steps_servfail(bs, apex, uppercase(rtype), normalize(name), Seq::empty(), Set::empty(), 11);
    let w = walk_names(bs, uppercase(rtype), normalize(name), 11);
    lemma_walk_len(bs, uppercase(rtype), normalize(name), 11);
    assert(!meets_visited(w, Set::empty()));
}

proof fn lemma_walk_len(bs: Seq<BucketView>, upper: Seq<char>, c: Seq<char>, k: nat)
    ensures
        1 <= walk_names(bs, upper, c, k).len() <= k + 1,
    decreases k,
{
    if k > 0 {
        if let Some(t) = next_name(bs, upper, c) {
            lemma_walk_len(bs, upper, t, (k - 1) as nat);
        }
    }
}

/// NODATA versus miss: when the queried name holds no record of the queried
/// type (other than `ANY`) and no CNAME, the answer is NODATA if the name
/// exists (an owner, an ancestor of one, or the zone apex) and a miss
/// otherwise.
pub proof fn lemma_nodata_or_miss(bs: Seq<BucketView>, name: Seq<char>, rtype: Seq<char>, apex: Option<Seq<char>>)
    requires
        uppercase(rtype) != "ANY"@,
        lookup(bs, normalize(name), uppercase(rtype)) is None,
        !has_cname(bs, normalize(name)),
    ensures
        resolution(bs, name, rtype, apex) == if name_exists_in(bs, normalize(name), apex) {
            Resolved::Nodata
        } else {
            Resolved::Miss
        },
{
}

/// Link `i` of `cycle`: its name holds no record of type `upper` but a
/// CNAME whose target is the next name of the cycle (the first after the last).
pub open spec fn cycle_link(bs: Seq<BucketView>, upper: Seq<char>, cycle: Seq<Seq<char>>, i: int) -> bool {
    let next = if i + 1 < cycle.len() {
        i + 1
    } else {
        0
    };
    &&& lookup(bs, cycle[i], upper) is None
    &&& has_cname(bs, cycle[i])
    &&& normalize(first_cname(bs, cycle[i]).value@) == cycle[next]
}

/// Following CNAMEs from the first name of `cycle` runs round it forever,
/// never meeting a record of type `upper`.
pub open spec fn is_cname_cycle(bs: Seq<BucketView>, upper: Seq<char>, cycle: Seq<Seq<char>>) -> bool {
    &&& cycle.len() > 0
    &&& forall|i: int| 0 <= i < cycle.len() ==> #[trigger] cycle_link(bs, upper, cycle, i)
}

proof fn lemma_cycle_steps(
    bs: Seq<BucketView>,
    apex: Option<Seq<char>>,
    upper: Seq<char>,
    cycle: Seq<Seq<char>>,
    j: int,
    chain: Seq<DnsRecord>,
    visited: Set<Seq<char>>,
    fuel: nat,
)
    requires
        is_cname_cycle(bs, upper, cycle),
        0 <= j < cycle.len(),
    ensures
        resolve_steps(bs, apex, upper, cycle[j], chain, visited, fuel) == Resolved::ServFail,
    decreases fuel,
{
    if fuel > 0 && !visited.contains(cycle[j]) {
        assert(cycle_link(bs, upper, cycle, j));
        let next = if j + 1 < cycle.len() {
            j + 1
        } else {
            0
        };
        let c = first_cname(bs, cycle[j]);
        lemma_cycle_steps(bs, apex, upper, cycle, next, chain.push(c), visited.insert(cycle[j]), (fuel - 1) as nat);
    }
}

/// Loop detection: a query whose CNAME chain runs round a cycle of names,
/// none of which holds a record of the queried type, is answered SERVFAIL.
pub proof fn lemma_cname_cycle_is_servfail(
    bs: Seq<BucketView>,
    name: Seq<char>,
    rtype: Seq<char>,
    apex: Option<Seq<char>>,
    cycle: Seq<Seq<char>>,
)
    requires
        is_cname_cycle(bs, uppercase(rtype), cycle),
        cycle[0] == normalize(name),
    ensures
        resolution(bs, name, rtype, apex) == Resolved::ServFail,
{
    lemma_cycle_steps(bs, apex, uppercase(rtype), cycle, 0, Seq::empty(), Set::empty(), 11);
}

proof fn lemma_chain_never_miss(
    bs: Seq<BucketView>,
    apex: Option<Seq<char>>,
    upper: Seq<char>,
    current: Seq<char>,
    chain: Seq<DnsRecord>,
    visited: Set<Seq<char>>,
    fuel: nat,
)
    requires
        chain.len() > 0,
    ensures
        resolve_steps(bs, apex, upper, current, chain, visited, fuel) != Resolved::Miss,
    decreases fuel,
{
    if fuel == 0 || visited.contains(current) {
    } else if has_cname(bs, current) {
        let c = first_cname(bs, current);
        lemma_chain_never_miss(bs, apex, upper, normalize(c.value@), chain.push(c), visited.insert(current), (fuel - 1) as nat);
    }
}

/// After upserting `r`, its owner name and every ancestor of it exist: a
/// query for any name whose normal form (lowercase, no trailing dot) is the
/// owner or one of its ancestors is never a miss, whatever its type and zone
/// apex.
pub proof fn lemma_upsert_owner_and_ancestors_exist(
    bs: Seq<BucketView>,
    r: DnsRecord,
    q: Seq<char>,
    rtype: Seq<char>,
    apex: Option<Seq<char>>,
)
    requires
        owned_by(normalize(r.name@), normalize(q)),
    ensures
        resolution(upserted(bs, r), q, rtype, apex) != Resolved::Miss,
{
    let n = normalize(r.name@);
    let t = uppercase(r.record_type@);
    let nq = normalize(q);
    let bs2 = upserted(bs, r);
    if exists|i: int| 0 <= i < bs.len() && #[trigger] bs[i].0 == n && bs[i].1 == t {
        let i = choose|i: int| 0 <= i < bs.len() && #[trigger] bs[i].0 == n && bs[i].1 == t;
        assert(bs2[i].0 == n);
        assert(owned_by(bs2[i].0, nq));
    } else {
        assert(bs2[bs.len() as int].0 == n);
        assert(owned_by(bs2[bs.len() as int].0, nq));
    }
    assert(is_owner_name(bs2, nq));
    assert(name_exists_in(bs2, nq, apex));
    let upper = uppercase(rtype);
    if has_cname(bs2, nq) {
        let c = first_cname(bs2, nq);
        lemma_chain_never_miss(bs2, apex, upper, normalize(c.value@), seq![c], Set::empty().insert(nq), 10);
        assert(Seq::<DnsRecord>::empty().push(c) == seq![c]);
    }
}

/// Read after write, as a query: once `r` (of a type other than `ANY`) is
/// upserted, a query of its own name and type finds the records stored
/// under that name and type before, without those with `r`'s id, followed
/// by `r`.
pub proof fn lemma_upsert_then_query(bs: Seq<BucketView>, r: DnsRecord, apex: Option<Seq<char>>)
    requires
        buckets_wf(bs),
        uppercase(r.record_type@) != "ANY"@,
    ensures
        resolution(upserted(bs, r), r.name@, r.record_type@, apex) == Resolved::Found(
            match lookup(bs, normalize(r.name@), uppercase(r.record_type@)) {
                Some(b) => drop_id(b, r.id),
                None => Seq::<DnsRecord>::empty(),
            }.push(r),
        ),
{
    let n = normalize(r.name@);
    let t = uppercase(r.record_type@);
    lemma_upsert_lookups(bs, r, n, t);
    let found = lookup(upserted(bs, r), n, t)->0;
    assert(Seq::<DnsRecord>::empty() + found =~= found);
}

/// The records stored in the buckets `bs`.
pub open spec fn stored(bs: Seq<BucketView>, x: DnsRecord) -> bool {
    exists|i: int, k: int| 0 <= i < bs.len() && 0 <= k < bs[i].2.len() && #[trigger] bs[i].2[k] == x
}

proof fn lemma_lookup_stored(bs: Seq<BucketView>, n: Seq<char>, t: Seq<char>)
    ensures
        lookup(bs, n, t) matches Some(v) ==> forall|k: int| 0 <= k < v.len() ==> stored(bs, #[trigger] v[k]),
{
    if lookup(bs, n, t) is Some {
        let i = choose|i: int| 0 <= i < bs.len() && #[trigger] bs[i].0 == n && bs[i].1 == t;
        assert forall|k: int| 0 <= k < bs[i].2.len() implies stored(bs, #[trigger] bs[i].2[k]) by {
            assert(bs[i].2[k] == bs[i].2[k]);
        }
    }
}

proof fn lemma_records_named_stored(bs: Seq<BucketView>, n: Seq<char>)
    ensures
        forall|k: int| 0 <= k < records_named(bs, n).len() ==> stored(bs, #[trigger] records_named(bs, n)[k]),
    decreases bs.len(),
{
    if bs.len() > 0 {
        let p = bs.drop_last();
        lemma_records_named_stored(p, n);
        let rn = records_named(bs, n);
        let rp = records_named(p, n);
        assert forall|k: int| 0 <= k < rn.len() implies stored(bs, #[trigger] rn[k]) by {
            if bs.last().0 == n && k >= rp.len() {
                assert(rn[k] == bs[bs.len() - 1].2[k - rp.len()]);
            } else {
                assert(rn[k] == rp[k]);
                let (i, j) = choose|i: int, j: int| 0 <= i < p.len() && 0 <= j < p[i].2.len() && #[trigger] p[i].2[j] == rp[k];
                assert(bs[i].2[j] == rp[k]);
            }
        }
    }
}

/// An answer holds only stored records: every record of a found answer is
/// stored in some bucket of the index.
pub proof fn lemma_answers_are_stored(bs: Seq<BucketView>, name: Seq<char>, rtype: Seq<char>, apex: Option<Seq<char>>, v: Seq<DnsRecord>)
    requires
        buckets_wf(bs),
        resolution(bs, name, rtype, apex) == Resolved::Found(v),
    ensures
        forall|k: int| 0 <= k < v.len() ==> stored(bs, #[trigger] v[k]),
{
    lemma_found_shape(bs, name, rtype, apex, v);
    let upper = uppercase(rtype);
    let w = walk_names(bs, upper, normalize(name), 11);
    let cs = walk_cnames(bs, w);
    let ans = answer_at(bs, upper, w.last());
    lemma_lookup_stored(bs, w.last(), upper);
    lemma_records_named_stored(bs, w.last());
    lemma_walk_links(bs, upper, normalize(name), 11);
    assert forall|k: int| 0 <= k < v.len() implies stored(bs, #[trigger] v[k]) by {
        if k < cs.len() {
            lemma_lookup_stored(bs, w[k], "CNAME"@);
            assert(v[k] == first_cname(bs, w[k]));
            assert(has_cname(bs, w[k]));
            assert(lookup(bs, w[k], "CNAME"@)->0[0] == v[k]);
        } else {
            assert(v[k] == ans[k - cs.len()]);
        }
    }
}

proof fn lemma_walk_links(bs: Seq<BucketView>, upper: Seq<char>, c: Seq<char>, fuel: nat)
    ensures
        forall|i: int| 0 <= i < walk_names(bs, upper, c, fuel).len() - 1 ==> has_cname(bs, #[trigger] walk_names(bs, upper, c, fuel)[i]),
    decreases fuel,
{
    let w = walk_names(bs, upper, c, fuel);
    if fuel > 0 {
        if let Some(t) = next_name(bs, upper, c) {
            lemma_walk_links(bs, upper, t, (fuel - 1) as nat);
            let w2 = walk_names(bs, upper, t, (fuel - 1) as nat);
            assert forall|i: int| 0 <= i < w.len() - 1 implies has_cname(bs, #[trigger] w[i]) by {
                if i > 0 {
                    assert(w[i] == w2[i - 1]);
                }
            }
        }
    }
}

/// Removing by id, as queries: after `remove_by_id(id)`, no answer of the
/// index holds a record with that id.
pub proof fn lemma_removed_id_never_answered(bs: Seq<BucketView>, id: i64, name: Seq<char>, rtype: Seq<char>, apex: Option<Seq<char>>, v: Seq<DnsRecord>)
    requires
        buckets_wf(bs),
        resolution(without_record(bs, id), name, rtype, apex) == Resolved::Found(v),
    ensures
        forall|k: int| 0 <= k < v.len() ==> (#[trigger] v[k]).id != id,
{
    let bs2 = without_record(bs, id);
    lemma_without_record_wf(bs, id);
    lemma_answers_are_stored(bs2, name, rtype, apex, v);
    lemma_remove_by_id_removes(bs, id);
    assert forall|k: int| 0 <= k < v.len() implies (#[trigger] v[k]).id != id by {
        assert(stored(bs2, v[k]));
        let (i, j) = choose|i: int, j: int| 0 <= i < bs2.len() && 0 <= j < bs2[i].2.len() && #[trigger] bs2[i].2[j] == v[k];
        assert(bs2[i].2[j].id != id);
    }
}

/// The CNAME records taken along the walk `w`: the first CNAME of each name
/// of `w` but the last.
pub open spec fn walk_cnames(bs: Seq<BucketView>, w: Seq<Seq<char>>) -> Seq<DnsRecord> {
    Seq::new((w.len() - 1) as nat, |i: int| first_cname(bs, w[i]))
}

/// The records that answer a query of type `upper` at name `c`: all of its
/// records for `ANY`, else those of that type.
pub open spec fn answer_at(bs: Seq<BucketView>, upper: Seq<char>, c: Seq<char>) -> Seq<DnsRecord> {
    if upper == "ANY"@ {
        records_named(bs, c)
    } else {
        match lookup(bs, c, upper) {
            Some(v) => v,
            None => Seq::empty(),
        }
    }
}

proof fn lemma_steps_found(
    bs: Seq<BucketView>,
    apex: Option<Seq<char>>,
    upper: Seq<char>,
    c: Seq<char>,
    chain: Seq<DnsRecord>,
    visited: Set<Seq<char>>,
    fuel: nat,
    v: Seq<DnsRecord>,
)
    requires
        buckets_wf(bs),
        resolve_steps(bs, apex, upper, c, chain, visited, fuel) == Resolved::Found(v),
    ensures
        ({
            let w = walk_names(bs, upper, c, fuel);
            &&& v == chain + walk_cnames(bs, w) + answer_at(bs, upper, w.last())
            &&& v.len() > 0
        }),
    decreases fuel,
{
    let w = walk_names(bs, upper, c, fuel);
    match next_name(bs, upper, c) {
        Some(t) => {
            let c1 = first_cname(bs, c);
            lemma_steps_found(bs, apex, upper, t, chain.push(c1), visited.insert(c), (fuel - 1) as nat, v);
            let w2 = walk_names(bs, upper, t, (fuel - 1) as nat);
            lemma_walk_len(bs, upper, t, (fuel - 1) as nat);
            assert(w == seq![c] + w2);
            assert(w.last() == w2.last());
            assert(walk_cnames(bs, w) =~= seq![c1] + walk_cnames(bs, w2)) by {
                assert forall|i: int| 0 <= i < walk_cnames(bs, w).len() implies #[trigger] walk_cnames(bs, w)[i] == (
                seq![c1] + walk_cnames(bs, w2))[i] by {
                    if i > 0 {
                        assert(w[i] == w2[i - 1]);
                    }
                }
            }
            assert(chain.push(c1) + walk_cnames(bs, w2) =~= chain + (seq![c1] + walk_cnames(bs, w2)));
        },
        None => {
            assert(w =~= seq![c]);
            assert(walk_cnames(bs, w) =~= Seq::<DnsRecord>::empty());
            if upper != "ANY"@ && lookup(bs, c, upper) is Some {
                let i = choose|i: int| 0 <= i < bs.len() && #[trigger] bs[i].0 == c && bs[i].1 == upper;
                assert(bs[i].2.len() > 0);
            }
            if upper == "ANY"@ && records_named(bs, c).len() == 0 {
                assert(records_named(bs, c) =~= Seq::<DnsRecord>::empty());
            }
            assert(chain + walk_cnames(bs, w) =~= chain);
        },
    }
}

/// The shape of a found answer: the CNAME records taken along the walk from
/// the queried name (the first CNAME of each name left, at most ten), then
/// the records that answer the query where the walk stops. The answer is
/// never empty.
pub proof fn lemma_found_shape(bs: Seq<BucketView>, name: Seq<char>, rtype: Seq<char>, apex: Option<Seq<char>>, v: Seq<DnsRecord>)
    requires
        buckets_wf(bs),
        resolution(bs, name, rtype, apex) == Resolved::Found(v),
    ensures
        ({
            let w = walk_names(bs, uppercase(rtype), normalize(name), 11);
            &&& w.len() <= 11
            &&& v == walk_cnames(bs, w) + answer_at(bs, uppercase(rtype), w.last())
            &&& v.len() > 0
        }),
{
    lemma_servfail_iff_loop_or_depth(bs, name, rtype, apex);
    lemma_steps_found(bs, apex, uppercase(rtype), normalize(name), Seq::empty(), Set::empty(), 11, v);
    let w = walk_names(bs, uppercase(rtype), normalize(name), 11);
    assert(Seq::<DnsRecord>::empty() + walk_cnames(bs, w) =~= walk_cnames(bs, w));
}

} // verus!
