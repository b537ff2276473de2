//! In-memory domain blocklist index.
//!
//! If `example.com` is blocked then:
//! - `example.com`                → **blocked** (exact)
//! - `www.example.com`            → **blocked** (subdomain)
//! - `tracker.ads.example.com`    → **blocked** (deep subdomain)
//! - `notexample.com`             → **allowed** (label boundary enforced)
//! - `example.com.evil.test`      → **allowed** (label boundary enforced)
//!
//! A name is blocked exactly when the labels of some blocked domain are the
//! trailing labels of the name (both normalised: lowercase, no trailing dot).
use vstd::prelude::*;

use crate::names::{
    ends_with_labels, is_domain_or_subdomain, is_suffix_of, labels_view, lemma_label_suffix_is_text_suffix, lemma_split_char_nonempty, lemma_split_dots_injective,
    name_labels, normalize, normalize_name, same_labels, split_dots, split_labels,
};

verus! {

broadcast use vstd::string::group_string_axioms;

/// Blocked domains, each kept as its normalised labels; no two entries are
/// equal.
pub struct BlocklistIndex {
    entries: Vec<Vec<String>>,
}

spec fn keys_of(es: Seq<Vec<String>>) -> Seq<Seq<Seq<char>>> {
    es.map_values(|v: Vec<String>| labels_view(v@))
}

/// The block points after blocking `domain` (a domain that is empty once
/// normalised blocks nothing).
pub open spec fn with_domain(s: Set<Seq<Seq<char>>>, domain: Seq<char>) -> Set<Seq<Seq<char>>> {
    if normalize(domain).len() == 0 {
        s
    } else {
        s.insert(name_labels(domain))
    }
}

/// The block points after blocking `domains` in order.
pub open spec fn domains_state(domains: Seq<Seq<char>>) -> Set<Seq<Seq<char>>>
    decreases domains.len(),
{
    if domains.len() == 0 {
        Set::empty()
    } else {
        with_domain(domains_state(domains.drop_last()), domains.last())
    }
}

/// `name` falls under one of the block points `s`.
pub open spec fn blocked_by(s: Set<Seq<Seq<char>>>, name: Seq<char>) -> bool {
    &&& normalize(name).len() > 0
    &&& exists|k: Seq<Seq<char>>| #[trigger] s.contains(k) && is_suffix_of(k, name_labels(name))
}

impl View for BlocklistIndex {
    type V = Set<Seq<Seq<char>>>;

    closed spec fn view(&self) -> Set<Seq<Seq<char>>> {
        keys_of(self.entries@).to_set()
    }
}

impl BlocklistIndex {
    /// The index's internal consistency: no blocked domain is stored twice.
    pub closed spec fn wf(&self) -> bool {
        keys_of(self.entries@).no_duplicates()
    }

    /// An index that blocks nothing.
    pub fn new() -> (idx: Self)
        ensures
            idx.wf(),
            idx@ == Set::<Seq<Seq<char>>>::empty(),
    {
        let idx = BlocklistIndex { entries: Vec::new() };
        assert(keys_of(idx.entries@).to_set() =~= Set::empty());
        idx
    }

    /// Builds an index from domain strings, blocked in order.
    pub fn from_domains(domains: &[String]) -> (idx: Self)
        ensures
            idx.wf(),
            idx@ == domains_state(domains@.map_values(|d: String| d@)),
    {
        let mut idx = BlocklistIndex::new();
        let ghost ds = domains@.map_values(|d: String| d@);
        for i in 0..domains.len()
            invariant
                idx.wf(),
                ds == domains@.map_values(|d: String| d@),
                idx@ == domains_state(ds.take(i as int)),
        {
            assert(ds.take(i + 1).drop_last() =~= ds.take(i as int));
            idx.insert(domains[i].as_str());
        }
        assert(ds.take(domains.len() as int) =~= ds);
        idx
    }

    /// Returns the number of blocked domains in the index.
    pub fn len(&self) -> (n: usize)
        requires
            self.wf(),
        ensures
            n == self@.len(),
    {
        proof {
            keys_of(self.entries@).unique_seq_to_set();
        }
        self.entries.len()
    }

    /// Returns `true` when no domains are blocked.
    pub fn is_empty(&self) -> (b: bool)
        requires
            self.wf(),
        ensures
            b == (self@.len() == 0),
    {
        self.len() == 0
    }

    /// Blocks `domain` and all of its subdomains.
    pub fn insert(&mut self, domain: &str)
        requires
            old(self).wf(),
        ensures
            final(self).wf(),
            final(self)@ == with_domain(old(self)@, domain@),
    {
        let normalized = normalize_name(domain);
        if normalized.as_str().is_empty() {
            return;
        }
        let labels = split_labels(normalized.as_str());
        let ghost key = labels_view(labels@);
        let ghost old_keys = keys_of(self.entries@);
        let mut i: usize = 0;
        while i < self.entries.len()
            invariant
                i <= self.entries.len(),
                keys_of(self.entries@) == old_keys,
                old(self).wf(),
                normalize(domain@).len() != 0,
                key == name_labels(domain@),
                self@ == old(self)@,
                self.entries@ == old(self).entries@,
                labels_view(labels@) == key,
                forall|j: int| 0 <= j < i ==> old_keys[j] != key,
            decreases self.entries.len() - i,
        {
            if same_labels(&self.entries[i], &labels) {
                assert(old_keys[i as int] == key);
                assert(old_keys.to_set().contains(key));
                assert(self@ =~= old(self)@.insert(key));
                return;
            }
            i = i + 1;
        }
        let ghost before = self.entries@;
        self.entries.push(labels);
        proof {
            assert(keys_of(self.entries@) =~= old_keys.push(key));
            assert(!old_keys.contains(key));
            let ks = keys_of(self.entries@);
            assert(ks.no_duplicates());
            assert forall|k: Seq<Seq<char>>| #[trigger] ks.contains(k) <==> old_keys.contains(k) || k == key by {
                if ks.contains(k) {
                    let j = choose|j: int| 0 <= j < ks.len() && ks[j] == k;
                    if j < old_keys.len() {
                        assert(old_keys[j] == k);
                    }
                }
                if old_keys.contains(k) {
                    let j = choose|j: int| 0 <= j < old_keys.len() && old_keys[j] == k;
                    assert(ks[j] == k);
                }
                if k == key {
                    assert(ks[old_keys.len() as int] == k);
                }
            }
            assert(self@ =~= old(self)@.insert(key));
        }
    }

    /// Returns `true` when `name` or any ancestor zone matches a blocked entry.
    pub fn is_blocked(&self, name: &str) -> (b: bool)
        ensures
            b == blocked_by(self@, name@),
    {
        let normalized = normalize_name(name);
        if normalized.as_str().is_empty() {
            return false;
        }
        let labels = split_labels(normalized.as_str());
        let ghost keys = keys_of(self.entries@);
        for i in 0..self.entries.len()
            invariant
                keys == keys_of(self.entries@),
                normalize(name@).len() > 0,
                labels_view(labels@) == name_labels(name@),
                forall|j: int| 0 <= j < i ==> !is_suffix_of(#[trigger] keys[j], name_labels(name@)),
        {
            if ends_with_labels(&labels, &self.entries[i]) {
                assert(keys.to_set().contains(keys[i as int]));
                assert(self@.contains(keys[i as int]) && is_suffix_of(keys[i as int], name_labels(name@)));
                return true;
            }
        }
        proof {
            assert forall|k: Seq<Seq<char>>| #[trigger] self@.contains(k) implies !is_suffix_of(k, name_labels(name@)) by {
                let j = choose|j: int| 0 <= j < keys.len() && keys[j] == k;
                assert(!is_suffix_of(keys[j], name_labels(name@)));
            }
        }
        false
    }
}

impl Default for BlocklistIndex {
    fn default() -> (r: Self)
        ensures
            r.wf(),
            r@ == Set::<Seq<Seq<char>>>::empty(),
    {
        BlocklistIndex::new()
    }
}


/// Blocking a domain blocks it and every name below it, label by label.
pub proof fn lemma_blocks_domain_and_subdomains(s: Set<Seq<Seq<char>>>, domain: Seq<char>, name: Seq<char>)
    requires
        normalize(domain).len() > 0,
        normalize(name).len() > 0,
        is_suffix_of(name_labels(domain), name_labels(name)),
    ensures
        blocked_by(with_domain(s, domain), name),
{
    assert(with_domain(s, domain).contains(name_labels(domain)));
}

/// Blocking more never unblocks anything.
pub proof fn lemma_blocking_is_monotone(s: Set<Seq<Seq<char>>>, domain: Seq<char>, name: Seq<char>)
    requires
        blocked_by(s, name),
    ensures
        blocked_by(with_domain(s, domain), name),
{
    let k = choose|k: Seq<Seq<char>>| #[trigger] s.contains(k) && is_suffix_of(k, name_labels(name));
    assert(with_domain(s, domain).contains(k));
}

/// Blocking a domain twice is blocking it once (duplicates add no block point).
pub proof fn lemma_block_idempotent(s: Set<Seq<Seq<char>>>, domain: Seq<char>)
    ensures
        with_domain(with_domain(s, domain), domain) == with_domain(s, domain),
{
    if normalize(domain).len() != 0 {
        assert(s.insert(name_labels(domain)).insert(name_labels(domain)) =~= s.insert(name_labels(domain)));
    }
}

/// Names that differ only in letter case and trailing dots are blocked alike.
pub proof fn lemma_blocking_ignores_case_and_trailing_dots(s: Set<Seq<Seq<char>>>, a: Seq<char>, b: Seq<char>)
    requires
        normalize(a) == normalize(b),
    ensures
        blocked_by(s, a) == blocked_by(s, b),
{
}

/// The normalised names of `domains` that are not empty: what a blocklist
/// built from `domains` blocks.
pub open spec fn blocked_names(domains: Seq<Seq<char>>) -> Set<Seq<char>> {
    domains.map_values(|d: Seq<char>| normalize(d)).to_set().filter(|x: Seq<char>| x.len() > 0)
}

proof fn lemma_domains_state_contains(domains: Seq<Seq<char>>, k: Seq<Seq<char>>)
    ensures
        domains_state(domains).contains(k) <==> exists|i: int|
            0 <= i < domains.len() && normalize(#[trigger] domains[i]).len() > 0 && name_labels(domains[i]) == k,
    decreases domains.len(),
{
    if domains.len() > 0 {
        let p = domains.drop_last();
        lemma_domains_state_contains(p, k);
        let d = domains.last();
        if domains_state(domains).contains(k) {
            if domains_state(p).contains(k) {
                let i = choose|i: int| 0 <= i < p.len() && normalize(#[trigger] p[i]).len() > 0 && name_labels(p[i]) == k;
                assert(domains[i] == p[i]);
            } else {
                assert(domains[domains.len() - 1] == d);
            }
        }
        if exists|i: int| 0 <= i < domains.len() && normalize(#[trigger] domains[i]).len() > 0 && name_labels(domains[i]) == k {
            let i = choose|i: int| 0 <= i < domains.len() && normalize(#[trigger] domains[i]).len() > 0 && name_labels(domains[i]) == k;
            if i < p.len() {
                assert(p[i] == domains[i]);
            }
        }
    }
}

/// The block points of a list of domains are the labels of its non-empty
/// normalised names.
proof fn lemma_domains_state_is_names(domains: Seq<Seq<char>>)
    ensures
        domains_state(domains) == blocked_names(domains).map(|x: Seq<char>| split_dots(x)),
{
    let m = domains.map_values(|d: Seq<char>| normalize(d));
    let names = blocked_names(domains);
    let f = |x: Seq<char>| split_dots(x);
    let labelled = names.map(f);
    assert forall|k: Seq<Seq<char>>| #[trigger] domains_state(domains).contains(k) <==> labelled.contains(k) by {
        lemma_domains_state_contains(domains, k);
        if domains_state(domains).contains(k) {
            let i = choose|i: int| 0 <= i < domains.len() && normalize(#[trigger] domains[i]).len() > 0 && name_labels(domains[i]) == k;
            assert(m[i] == normalize(domains[i]));
            assert(m.to_set().contains(m[i]));
            assert(names.contains(normalize(domains[i])));
        }
        if labelled.contains(k) {
            let x = choose|x: Seq<char>| names.contains(x) && f(x) == k;
            assert(m.contains(x));
            let i = choose|i: int| 0 <= i < m.len() && m[i] == x;
            assert(normalize(domains[i]) == x);
        }
    }
    assert(domains_state(domains) =~= labelled);
}

/// A blocklist built from `domains` blocks a name exactly when the name is
/// not empty once normalised and the labels of some listed domain (not empty
/// once normalised) are its trailing labels.
pub proof fn lemma_blocked_iff_listed(domains: Seq<Seq<char>>, name: Seq<char>)
    ensures
        blocked_by(domains_state(domains), name) <==> (normalize(name).len() > 0 && exists|i: int|
            0 <= i < domains.len() && normalize(#[trigger] domains[i]).len() > 0 && is_suffix_of(
                name_labels(domains[i]),
                name_labels(name),
            )),
{
    if blocked_by(domains_state(domains), name) {
        let k = choose|k: Seq<Seq<char>>| #[trigger] domains_state(domains).contains(k) && is_suffix_of(k, name_labels(name));
        lemma_domains_state_contains(domains, k);
    }
    if normalize(name).len() > 0 && exists|i: int|
        0 <= i < domains.len() && normalize(#[trigger] domains[i]).len() > 0 && is_suffix_of(
            name_labels(domains[i]),
            name_labels(name),
        ) {
        let i = choose|i: int|
            0 <= i < domains.len() && normalize(#[trigger] domains[i]).len() > 0 && is_suffix_of(
                name_labels(domains[i]),
                name_labels(name),
            );
        lemma_domains_state_contains(domains, name_labels(domains[i]));
        assert(domains_state(domains).contains(name_labels(domains[i])));
    }
}

/// Lists of domains with the same non-empty normalised names give the same
/// blocklist, whatever their order, letter case, trailing dots, repetitions
/// and empty entries: the same block points, so the same size and the same
/// answer for every name.
pub proof fn lemma_same_names_same_blocklist(a: Seq<Seq<char>>, b: Seq<Seq<char>>)
    requires
        blocked_names(a) == blocked_names(b),
    ensures
        domains_state(a) == domains_state(b),
        domains_state(a).len() == domains_state(b).len(),
        forall|name: Seq<char>| #[trigger] blocked_by(domains_state(a), name) == blocked_by(domains_state(b), name),
{
    lemma_domains_state_is_names(a);
    lemma_domains_state_is_names(b);
}

/// Matching in text form: a blocklist built from `domains` blocks `name`
/// exactly when the normalised name is not empty and, for some listed domain
/// not empty once normalised, the normalised name is that domain or ends
/// with a dot followed by it (label boundaries are kept).
pub proof fn lemma_blocked_iff_listed_text(domains: Seq<Seq<char>>, name: Seq<char>)
    ensures
        blocked_by(domains_state(domains), name) <==> (normalize(name).len() > 0 && exists|i: int|
            0 <= i < domains.len() && normalize(#[trigger] domains[i]).len() > 0 && is_domain_or_subdomain(
                normalize(name),
                normalize(domains[i]),
            )),
{
    lemma_blocked_iff_listed(domains, name);
    assert forall|i: int| 0 <= i < domains.len() implies (is_suffix_of(
        name_labels(#[trigger] domains[i]),
        name_labels(name),
    ) <==> is_domain_or_subdomain(normalize(name), normalize(domains[i]))) by {
        lemma_label_suffix_is_text_suffix(normalize(name), normalize(domains[i]));
    }
}

/// A blocklist built from `domains` holds one block point per distinct
/// non-empty normalised name.
pub proof fn lemma_blocklist_size(domains: Seq<Seq<char>>)
    ensures
        blocked_names(domains).finite(),
        domains_state(domains).len() == blocked_names(domains).len(),
{
    let m = domains.map_values(|d: Seq<char>| normalize(d));
    vstd::seq_lib::seq_to_set_is_finite(m);
    m.to_set().lemma_len_filter(|x: Seq<char>| x.len() > 0);
    let names = blocked_names(domains);
    lemma_domains_state_is_names(domains);
    let f = |x: Seq<char>| split_dots(x);
    assert(vstd::relations::injective_on(f, names)) by {
        assert forall|x: Seq<char>, y: Seq<char>| names.contains(x) && names.contains(y) && #[trigger] f(x) == #[trigger] f(y)
            implies x == y by {
            lemma_split_dots_injective(x, y);
        }
    }
    vstd::set_lib::lemma_map_size(names, domains_state(domains), f);
}
} // verus!
