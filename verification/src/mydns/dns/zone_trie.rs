//! Authoritative zone ownership lookup.
//!
//! A zone owns a DNS name when the zone's labels are the trailing labels of
//! the name (so `example.com` owns `sub.example.com` but not
//! `notexample.com`). When several configured zones own a name, the one with
//! the most labels wins. Configuring the root zone `"."` makes every name
//! owned by `"."`.
use vstd::prelude::*;

use crate::names::{
    is_suffix_of, labels_view, lemma_split_char_nonempty, name_labels, normalize, normalize_name,
    normalized_labels, ends_with_labels, same_labels, same_text, split_labels,
};

verus! {

broadcast use vstd::string::group_string_axioms;

/// One configured zone: its normalised labels and the zone string as it
/// was configured.
struct ZoneEntry {
    labels: Vec<String>,
    zone: String,
}

/// Zone ownership index.
///
/// Zones are kept with their normalised labels (lowercase, no trailing
/// dot); no two entries have the same labels, and a later configuration of
/// the same labels replaces the stored zone string.
pub struct ZoneTrie {
    entries: Vec<ZoneEntry>,
    /// True when the root zone `"."` is configured. Overrides every other zone.
    root_authoritative: bool,
}

/// The abstract content of a zone index: the configured zones keyed by their
/// normalised labels, and whether the root zone is configured.
pub type ZoneState = (Map<Seq<Seq<char>>, Seq<char>>, bool);

spec fn entry_key(e: ZoneEntry) -> Seq<Seq<char>> {
    labels_view(e.labels@)
}

spec fn has_key(es: Seq<ZoneEntry>, k: Seq<Seq<char>>) -> bool {
    exists|i: int| 0 <= i < es.len() && #[trigger] entry_key(es[i]) == k
}

spec fn entries_map(es: Seq<ZoneEntry>) -> Map<Seq<Seq<char>>, Seq<char>> {
    Map::new(
        |k: Seq<Seq<char>>| has_key(es, k),
        |k: Seq<Seq<char>>| es[choose|i: int| 0 <= i < es.len() && #[trigger] entry_key(es[i]) == k].zone@,
    )
}

spec fn distinct_keys(es: Seq<ZoneEntry>) -> bool {
    forall|i: int, j: int|
        0 <= i < es.len() && 0 <= j < es.len() && i != j ==> #[trigger] entry_key(es[i])
            != #[trigger] entry_key(es[j])
}

proof fn lemma_entries_map_at(es: Seq<ZoneEntry>, i: int)
    requires
        distinct_keys(es),
        0 <= i < es.len(),
    ensures
        entries_map(es).contains_key(entry_key(es[i])),
        entries_map(es)[entry_key(es[i])] == es[i].zone@,
{
    let k = entry_key(es[i]);
    assert(has_key(es, k));
    let j = choose|j: int| 0 <= j < es.len() && #[trigger] entry_key(es[j]) == k;
    assert(j == i);
}

/// The root zone, `"."`.
pub open spec fn root_zone() -> Seq<char> {
    seq!['.']
}

/// The labels of `name` from position `len - d` to the end.
pub open spec fn trailing_labels(labels: Seq<Seq<char>>, d: int) -> Seq<Seq<char>> {
    labels.subrange(labels.len() - d, labels.len() as int)
}

/// The zone of the longest trailing part (of at most `d` labels) of
/// `labels` that is a configured zone.
pub open spec fn deepest_zone(zones: Map<Seq<Seq<char>>, Seq<char>>, labels: Seq<Seq<char>>, d: nat) -> Option<Seq<char>>
    decreases d,
{
    if d == 0 {
        None
    } else if zones.contains_key(trailing_labels(labels, d as int)) {
        Some(zones[trailing_labels(labels, d as int)])
    } else {
        deepest_zone(zones, labels, (d - 1) as nat)
    }
}

/// The zone that owns `name` in an index with content `st`.
pub open spec fn zone_of(st: ZoneState, name: Seq<char>) -> Option<Seq<char>> {
    if st.1 {
        Some(root_zone())
    } else {
        deepest_zone(st.0, name_labels(name), name_labels(name).len())
    }
}

/// The content after configuring `zone`.
pub open spec fn with_zone(st: ZoneState, zone: Seq<char>) -> ZoneState {
    if zone == root_zone() {
        (st.0, true)
    } else if normalize(zone).len() == 0 {
        st
    } else {
        (st.0.insert(name_labels(zone), zone), st.1)
    }
}

/// The content after configuring `zones` in order.
pub open spec fn zones_state(zones: Seq<Seq<char>>) -> ZoneState
    decreases zones.len(),
{
    if zones.len() == 0 {
        (Map::empty(), false)
    } else {
        with_zone(zones_state(zones.drop_last()), zones.last())
    }
}

proof fn lemma_deepest_none(zones: Map<Seq<Seq<char>>, Seq<char>>, labels: Seq<Seq<char>>, d: nat)
    requires
        d <= labels.len(),
        forall|e: int| 1 <= e <= d ==> !zones.contains_key(#[trigger] trailing_labels(labels, e)),
    ensures
        deepest_zone(zones, labels, d) is None,
    decreases d,
{
    if d > 0 {
        assert(!zones.contains_key(trailing_labels(labels, d as int)));
        lemma_deepest_none(zones, labels, (d - 1) as nat);
    }
}

proof fn lemma_deepest_some(zones: Map<Seq<Seq<char>>, Seq<char>>, labels: Seq<Seq<char>>, d: nat, s: nat)
    requires
        1 <= s <= d <= labels.len(),
        zones.contains_key(trailing_labels(labels, s as int)),
        forall|e: int| s < e <= d ==> !zones.contains_key(#[trigger] trailing_labels(labels, e)),
    ensures
        deepest_zone(zones, labels, d) == Some(zones[trailing_labels(labels, s as int)]),
    decreases d,
{
    if d > s {
        assert(!zones.contains_key(trailing_labels(labels, d as int)));
        lemma_deepest_some(zones, labels, (d - 1) as nat, s);
    }
}

impl View for ZoneTrie {
    type V = ZoneState;

    closed spec fn view(&self) -> ZoneState {
        (entries_map(self.entries@), self.root_authoritative)
    }
}

impl ZoneTrie {
    /// The index's internal consistency: no two entries share labels.
    pub closed spec fn wf(&self) -> bool {
        &&& distinct_keys(self.entries@)
        &&& forall|i: int| 0 <= i < self.entries@.len() ==> #[trigger] entry_key(self.entries@[i]).len() >= 1
    }

    /// An index with no zones.
    pub fn new() -> (t: Self)
        ensures
            t.wf(),
            t@ == zones_state(Seq::empty()),
    {
        let t = ZoneTrie { entries: Vec::new(), root_authoritative: false };
        assert(entries_map(t.entries@) =~= Map::empty());
        t
    }

    /// Builds an index from zone strings (e.g. `["example.com", "home.local"]`),
    /// configured in order.
    pub fn from_zones(zones: &[String]) -> (t: Self)
        ensures
            t.wf(),
            t@ == zones_state(zones@.map_values(|z: String| z@)),
    {
        let mut t = ZoneTrie::new();
        let ghost zs = zones@.map_values(|z: String| z@);
        for i in 0..zones.len()
            invariant
                t.wf(),
                zs == zones@.map_values(|z: String| z@),
                t@ == zones_state(zs.take(i as int)),
        {
            assert(zs.take(i + 1).drop_last() =~= zs.take(i as int));
            t.insert(zones[i].as_str());
        }
        assert(zs.take(zones.len() as int) =~= zs);
        t
    }

    /// Configures one zone. `"."` turns on root authority; a zone that is
    /// empty once normalised is ignored.
    pub fn insert(&mut self, zone: &str)
        requires
            old(self).wf(),
        ensures
            final(self).wf(),
            final(self)@ == with_zone(old(self)@, zone@),
    {
        proof {
            reveal_strlit(".");
            assert("."@ =~= root_zone());
        }
        if same_text(zone, ".") {
            self.root_authoritative = true;
            return;
        }
        let normalized = normalize_name(zone);
        if normalized.as_str().is_empty() {
            return;
        }
        let labels = split_labels(normalized.as_str());
        let ghost key = labels_view(labels@);
        proof {
            lemma_split_char_nonempty(normalized@, '.');
        }
        let ghost old_entries = self.entries@;
        let entry = ZoneEntry { labels, zone: zone.to_string() };
        let mut i: usize = 0;
        while i < self.entries.len()
            invariant
                i <= self.entries.len(),
                self.entries@ == old_entries,
                self.root_authoritative == old(self).root_authoritative,
                old(self).entries@ == old_entries,
                zone@ != root_zone(),
                normalize(zone@).len() != 0,
                distinct_keys(old_entries),
                forall|j: int| 0 <= j < old_entries.len() ==> #[trigger] entry_key(old_entries[j]).len() >= 1,
                entry_key(entry) == key,
                key.len() >= 1,
                key == name_labels(zone@),
                entry.zone@ == zone@,
                forall|j: int| 0 <= j < i ==> entry_key(old_entries[j]) != key,
            decreases self.entries.len() - i,
        {
            if same_labels(&self.entries[i].labels, &entry.labels) {
                let ghost new_zone = entry.zone@;
                assert(entry_key(old_entries[i as int]) == key);
                self.entries.set(i, entry);
                proof {
                    let es = self.entries@;
                    assert(distinct_keys(es)) by {
                        assert forall|a: int, b: int|
                            0 <= a < es.len() && 0 <= b < es.len() && a != b implies #[trigger] entry_key(es[a])
                                != #[trigger] entry_key(es[b]) by {
                            if a != i && b != i {
                                assert(entry_key(old_entries[a]) != entry_key(old_entries[b]));
                            } else if a == i {
                                assert(entry_key(old_entries[i as int]) != entry_key(old_entries[b]));
                            } else {
                                assert(entry_key(old_entries[a]) != entry_key(old_entries[i as int]));
                            }
                        }
                    }
                    let m_old = entries_map(old_entries);
                    let m_new = entries_map(es);
                    assert(old(self)@.0 == m_old);
                    assert(zone@ != root_zone());
                    assert(normalize(zone@).len() != 0);
                    assert(with_zone(old(self)@, zone@) == (m_old.insert(key, zone@), old(self)@.1));
                    assert(m_new =~= m_old.insert(key, new_zone)) by {
                        assert forall|k: Seq<Seq<char>>| #[trigger] m_new.contains_key(k) == m_old.insert(key, new_zone).contains_key(k) by {
                            if m_new.contains_key(k) {
                                let j = choose|j: int| 0 <= j < es.len() && #[trigger] entry_key(es[j]) == k;
                                if j != i {
                                    assert(entry_key(old_entries[j]) == k);
                                    assert(has_key(old_entries, k));
                                }
                            }
                            if m_old.contains_key(k) {
                                let j = choose|j: int| 0 <= j < old_entries.len() && #[trigger] entry_key(old_entries[j]) == k;
                                if j != i {
                                    assert(entry_key(es[j]) == k);
                                } else {
                                    assert(entry_key(es[i as int]) == k);
                                }
                                assert(has_key(es, k));
                            }
                            if k == key {
                                assert(entry_key(es[i as int]) == k);
                                assert(has_key(es, k));
                            }
                        }
                        assert forall|k: Seq<Seq<char>>| #[trigger] m_new.contains_key(k) implies m_new[k] == m_old.insert(key, new_zone)[k] by {
                            let j = choose|j: int| 0 <= j < es.len() && #[trigger] entry_key(es[j]) == k;
                            lemma_entries_map_at(es, j);
                            if j != i {
                                assert(es[j] == old_entries[j]);
                                assert(entry_key(old_entries[j]) != entry_key(old_entries[i as int]));
                                assert(k != key);
                                lemma_entries_map_at(old_entries, j);
                            } else {
                                assert(es[j].zone@ == new_zone);
                            }
                        }
                    }
                }
                return;
            }
            i = i + 1;
        }
        self.entries.push(entry);
        proof {
            let es = self.entries@;
            assert(es == old_entries.push(entry));
            assert(distinct_keys(es)) by {
                assert forall|a: int, b: int|
                    0 <= a < es.len() && 0 <= b < es.len() && a != b implies #[trigger] entry_key(es[a])
                        != #[trigger] entry_key(es[b]) by {
                    if a < old_entries.len() && b < old_entries.len() {
                        assert(entry_key(old_entries[a]) != entry_key(old_entries[b]));
                    } else if a < old_entries.len() {
                        assert(entry_key(old_entries[a]) != key);
                    } else {
                        assert(entry_key(old_entries[b]) != key);
                    }
                }
            }
            let m_old = entries_map(old_entries);
            let m_new = entries_map(es);
            assert(old(self)@.0 == m_old);
            assert(zone@ != root_zone());
            assert(normalize(zone@).len() != 0);
            assert(with_zone(old(self)@, zone@) == (m_old.insert(key, zone@), old(self)@.1));
            assert(m_new =~= m_old.insert(key, entry.zone@)) by {
                assert forall|k: Seq<Seq<char>>| #[trigger] m_new.contains_key(k) == m_old.insert(key, entry.zone@).contains_key(k) by {
                    if m_new.contains_key(k) {
                        let j = choose|j: int| 0 <= j < es.len() && #[trigger] entry_key(es[j]) == k;
                        if j < old_entries.len() {
                            assert(entry_key(old_entries[j]) == k);
                            assert(has_key(old_entries, k));
                        }
                    }
                    if m_old.contains_key(k) {
                        let j = choose|j: int| 0 <= j < old_entries.len() && #[trigger] entry_key(old_entries[j]) == k;
                        assert(entry_key(es[j]) == k);
                        assert(has_key(es, k));
                    }
                    if k == key {
                        assert(entry_key(es[old_entries.len() as int]) == k);
                        assert(has_key(es, k));
                    }
                }
                assert forall|k: Seq<Seq<char>>| #[trigger] m_new.contains_key(k) implies m_new[k] == m_old.insert(key, entry.zone@)[k] by {
                    let j = choose|j: int| 0 <= j < es.len() && #[trigger] entry_key(es[j]) == k;
                    lemma_entries_map_at(es, j);
                    if j < old_entries.len() {
                        assert(es[j] == old_entries[j]);
                        lemma_entries_map_at(old_entries, j);
                    }
                }
            }
            assert(self.root_authoritative == old(self).root_authoritative);
            assert(self@.0 == m_new);
            assert(entry.zone@ == zone@);
        }
    }

    /// Returns `true` when the root zone `"."` is configured. In this mode
    /// every DNS name is considered to fall within this server's authority.
    pub fn is_root_authoritative(&self) -> (b: bool)
        ensures
            b == self@.1,
    {
        self.root_authoritative
    }

    /// Returns the deepest matching authoritative zone for `name`, or `None`
    /// if the name does not fall within any configured zone.
    ///
    /// When the root zone `"."` is configured, always returns `Some(".")`.
    pub fn find_zone<'a>(&'a self, name: &str) -> (r: Option<&'a str>)
        requires
            self.wf(),
        ensures
            match r {
                Some(z) => zone_of(self@, name@) == Some(z@),
                None => zone_of(self@, name@) is None,
            },
    {
        if self.root_authoritative {
            proof {
                reveal_strlit(".");
            }
            return Some(".");
        }
        let labels = normalized_labels(name);
        let ghost lv = labels_view(labels@);
        let ghost es = self.entries@;
        let mut best: Option<usize> = None;
        let mut best_len: usize = 0;
        for i in 0..self.entries.len()
            invariant
                es == self.entries@,
                lv == labels_view(labels@),
                match best {
                    None => forall|j: int| 0 <= j < i ==> !is_suffix_of(#[trigger] entry_key(es[j]), lv),
                    Some(b) => {
                        &&& b < i
                        &&& is_suffix_of(entry_key(es[b as int]), lv)
                        &&& best_len == entry_key(es[b as int]).len()
                        &&& forall|j: int| 0 <= j < i && is_suffix_of(#[trigger] entry_key(es[j]), lv) ==> entry_key(es[j]).len() <= best_len
                    },
                },
        {
            let matches = ends_with_labels(&labels, &self.entries[i].labels);
            if matches && (best.is_none() || self.entries[i].labels.len() > best_len) {
                best = Some(i);
                best_len = self.entries[i].labels.len();
            }
        }
        let ghost m = entries_map(es);
        let ghost n = lv.len();
        proof {
            lemma_split_char_nonempty(normalize(name@), '.');
        }
        match best {
            None => {
                proof {
                    assert forall|e: int| 1 <= e <= n implies !m.contains_key(#[trigger] trailing_labels(lv, e)) by {
                        if m.contains_key(trailing_labels(lv, e)) {
                            let j = choose|j: int| 0 <= j < es.len() && #[trigger] entry_key(es[j]) == trailing_labels(lv, e);
                            assert(is_suffix_of(entry_key(es[j]), lv));
                        }
                    }
                    lemma_deepest_none(m, lv, n);
                }
                None
            },
            Some(b) => {
                proof {
                    let kb = entry_key(es[b as int]);
                    assert(trailing_labels(lv, best_len as int) =~= kb);
                    lemma_entries_map_at(es, b as int);
                    assert forall|e: int| best_len < e <= n implies !m.contains_key(#[trigger] trailing_labels(lv, e)) by {
                        if m.contains_key(trailing_labels(lv, e)) {
                            let j = choose|j: int| 0 <= j < es.len() && #[trigger] entry_key(es[j]) == trailing_labels(lv, e);
                            assert(is_suffix_of(entry_key(es[j]), lv));
                        }
                    }
                    lemma_deepest_some(m, lv, n, best_len as nat);
                }
                Some(self.entries[b].zone.as_str())
            },
        }
    }
}

impl Default for ZoneTrie {
    fn default() -> (r: Self)
        ensures
            r.wf(),
            r@ == zones_state(Seq::empty()),
    {
        ZoneTrie::new()
    }
}


/// Once the root zone is configured, every name belongs to it.
pub proof fn lemma_root_zone_owns_everything(st: ZoneState, name: Seq<char>)
    ensures
        zone_of(with_zone(st, root_zone()), name) == Some(root_zone()),
{
}

/// Configuring a zone twice is configuring it once.
pub proof fn lemma_insert_idempotent(st: ZoneState, zone: Seq<char>)
    ensures
        with_zone(with_zone(st, zone), zone) == with_zone(st, zone),
{
    if zone != root_zone() && normalize(zone).len() != 0 {
        assert(st.0.insert(name_labels(zone), zone).insert(name_labels(zone), zone) =~= st.0.insert(
            name_labels(zone),
            zone,
        ));
    }
}

proof fn lemma_deepest_is_suffix(zones: Map<Seq<Seq<char>>, Seq<char>>, labels: Seq<Seq<char>>, d: nat, k: Seq<Seq<char>>)
    requires
        d <= labels.len(),
        zones.contains_key(k),
        is_suffix_of(k, labels),
        k.len() <= d,
        k.len() > 0,
    ensures
        exists|e: int|
            k.len() <= e <= d && zones.contains_key(#[trigger] trailing_labels(labels, e)) && deepest_zone(
                zones,
                labels,
                d,
            ) == Some(zones[trailing_labels(labels, e)]),
    decreases d,
{
    if zones.contains_key(trailing_labels(labels, d as int)) {
        assert(deepest_zone(zones, labels, d) == Some(zones[trailing_labels(labels, d as int)]));
    } else {
        assert(trailing_labels(labels, k.len() as int) == k);
        assert(d != k.len());
        lemma_deepest_is_suffix(zones, labels, (d - 1) as nat, k);
    }
}

/// Longest match: when a configured zone's labels end a name's labels (and
/// the root zone is not configured), the name belongs to a configured zone
/// whose labels end the name's labels and are at least as many: the deepest
/// enclosing zone wins, and matches never cross a label boundary.
pub proof fn lemma_longest_match(st: ZoneState, name: Seq<char>, k: Seq<Seq<char>>)
    requires
        !st.1,
        st.0.contains_key(k),
        k.len() > 0,
        is_suffix_of(k, name_labels(name)),
    ensures
        exists|e: int|
            k.len() <= e <= name_labels(name).len() && st.0.contains_key(
                #[trigger] trailing_labels(name_labels(name), e),
            ) && zone_of(st, name) == Some(st.0[trailing_labels(name_labels(name), e)]),
{
    lemma_deepest_is_suffix(st.0, name_labels(name), name_labels(name).len(), k);
}

/// A name belongs to no zone (the root zone not being configured) when no
/// configured zone's labels end its labels.
pub proof fn lemma_no_enclosing_zone(st: ZoneState, name: Seq<char>)
    requires
        !st.1,
        forall|k: Seq<Seq<char>>| #[trigger] st.0.contains_key(k) ==> !is_suffix_of(k, name_labels(name)),
    ensures
        zone_of(st, name) is None,
{
    let labels = name_labels(name);
    assert forall|e: int| 1 <= e <= labels.len() implies !st.0.contains_key(#[trigger] trailing_labels(labels, e)) by {
        let t = trailing_labels(labels, e);
        if st.0.contains_key(t) {
            assert(is_suffix_of(t, labels));
        }
    }
    lemma_deepest_none(st.0, labels, labels.len());
}

/// Names that differ only in letter case and trailing dots belong to the
/// same zone.
pub proof fn lemma_zone_ignores_case_and_trailing_dots(st: ZoneState, a: Seq<char>, b: Seq<char>)
    requires
        normalize(a) == normalize(b),
    ensures
        zone_of(st, a) == zone_of(st, b),
{
}
proof fn lemma_deepest_is_longest(zones: Map<Seq<Seq<char>>, Seq<char>>, labels: Seq<Seq<char>>, d: nat)
    ensures
        deepest_zone(zones, labels, d) is Some <==> exists|e: int|
            1 <= e <= d && zones.contains_key(#[trigger] trailing_labels(labels, e)),
        deepest_zone(zones, labels, d) is Some ==> exists|e: int|
            1 <= e <= d && zones.contains_key(#[trigger] trailing_labels(labels, e)) && deepest_zone(zones, labels, d)
                == Some(zones[trailing_labels(labels, e)]) && forall|e2: int|
                e < e2 <= d ==> !zones.contains_key(#[trigger] trailing_labels(labels, e2)),
    decreases d,
{
    if d > 0 && !zones.contains_key(trailing_labels(labels, d as int)) {
        lemma_deepest_is_longest(zones, labels, (d - 1) as nat);
        if exists|e: int| 1 <= e <= d && zones.contains_key(#[trigger] trailing_labels(labels, e)) {
            let e = choose|e: int| 1 <= e <= d && zones.contains_key(#[trigger] trailing_labels(labels, e));
            assert(e < d);
        }
    }
}

/// Longest-suffix selection, for every name: with the root zone not
/// configured, a name belongs to a zone exactly when the labels of some
/// configured zone are trailing labels of the name, and then to the
/// configured zone with the most such labels.
pub proof fn lemma_zone_is_longest_suffix(st: ZoneState, name: Seq<char>)
    requires
        !st.1,
    ensures
        ({
            let labels = name_labels(name);
            &&& zone_of(st, name) is Some <==> exists|e: int|
                1 <= e <= labels.len() && st.0.contains_key(#[trigger] trailing_labels(labels, e))
            &&& zone_of(st, name) is Some ==> exists|e: int|
                1 <= e <= labels.len() && st.0.contains_key(#[trigger] trailing_labels(labels, e)) && zone_of(st, name)
                    == Some(st.0[trailing_labels(labels, e)]) && forall|e2: int|
                    e < e2 <= labels.len() ==> !st.0.contains_key(#[trigger] trailing_labels(labels, e2))
        }),
{
    lemma_deepest_is_longest(st.0, name_labels(name), name_labels(name).len());
}

} // verus!
