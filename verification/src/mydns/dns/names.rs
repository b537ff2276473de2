//! Domain names in wire form (labels of bytes) and the two comparisons the
//! resolver makes on them, with the semantics of `hickory_proto::rr::Name`:
//! equality ignores ASCII case and requires the same FQDN flag; a zone
//! contains a name when its labels end the name's labels, ignoring ASCII case.
use vstd::prelude::*;

verus! {

/// A domain name as a sequence of labels, most specific first.
#[derive(Debug)]
pub struct DomainName {
    pub labels: Vec<Vec<u8>>,
    pub fqdn: bool,
}

/// A domain name as a mathematical value.
pub struct NameView {
    pub labels: Seq<Seq<u8>>,
    pub fqdn: bool,
}

impl View for DomainName {
    type V = NameView;

    open spec fn view(&self) -> NameView {
        NameView { labels: label_views(self.labels@), fqdn: self.fqdn }
    }
}

/// The byte sequences of a sequence of labels.
pub open spec fn label_views(v: Seq<Vec<u8>>) -> Seq<Seq<u8>> {
    v.map_values(|l: Vec<u8>| l@)
}

/// `b` with ASCII upper-case letters mapped to lower case.
pub open spec fn ascii_lower(b: u8) -> u8 {
    if 0x41 <= b && b <= 0x5a {
        (b + 0x20) as u8
    } else {
        b
    }
}

/// Two labels are equal ignoring ASCII case.
pub open spec fn label_eq(a: Seq<u8>, b: Seq<u8>) -> bool {
    &&& a.len() == b.len()
    &&& forall|i: int| 0 <= i < a.len() ==> ascii_lower(#[trigger] a[i]) == ascii_lower(b[i])
}

/// Name equality as `Name`'s `PartialEq` defines it.
pub open spec fn name_eq(a: NameView, b: NameView) -> bool {
    &&& a.fqdn == b.fqdn
    &&& a.labels.len() == b.labels.len()
    &&& forall|i: int| 0 <= i < a.labels.len() ==> label_eq(#[trigger] a.labels[i], b.labels[i])
}

/// `Name::zone_of`: the zone has no labels, or the name has at least as many
/// and its last labels equal the zone's, ignoring ASCII case.
pub open spec fn zone_of(zone: NameView, name: NameView) -> bool {
    if zone.labels.len() == 0 {
        true
    } else if name.labels.len() == 0 {
        false
    } else if zone.labels.len() > name.labels.len() {
        false
    } else {
        forall|i: int|
            0 <= i < zone.labels.len() ==> label_eq(
                #[trigger] zone.labels[zone.labels.len() - 1 - i],
                name.labels[name.labels.len() - 1 - i],
            )
    }
}

/// `b` lowercased.
fn lower_byte(b: u8) -> (r: u8)
    ensures
        r == ascii_lower(b),
{
    if 0x41 <= b && b <= 0x5a {
        b + 0x20
    } else {
        b
    }
}

/// Two labels are equal ignoring ASCII case.
pub fn labels_equal(a: &Vec<u8>, b: &Vec<u8>) -> (r: bool)
    ensures
        r == label_eq(a@, b@),
{
    if a.len() != b.len() {
        return false;
    }
    let mut i: usize = 0;
    while i < a.len()
        invariant
            i <= a.len() == b.len(),
            forall|k: int| 0 <= k < i ==> ascii_lower(#[trigger] a@[k]) == ascii_lower(b@[k]),
        decreases a.len() - i,
    {
        if lower_byte(a[i]) != lower_byte(b[i]) {
            return false;
        }
        i = i + 1;
    }
    true
}

impl DomainName {
    /// A copy of this name.
    pub fn copy(&self) -> (r: DomainName)
        ensures
            r@ == self@,
    {
        let mut labels: Vec<Vec<u8>> = Vec::new();
        let mut i: usize = 0;
        while i < self.labels.len()
            invariant
                i <= self.labels.len(),
                label_views(labels@) == label_views(self.labels@.take(i as int)),
            decreases self.labels.len() - i,
        {
            let l = self.labels[i].clone();
            assert(l@ =~= self.labels@[i as int]@);
            let ghost before = labels@;
            labels.push(l);
            assert(label_views(labels@) =~= label_views(before).push(l@));
            assert(label_views(self.labels@.take(i + 1)) =~= label_views(self.labels@.take(i as int)).push(
                self.labels@[i as int]@,
            ));
            i = i + 1;
        }
        assert(self.labels@.take(self.labels.len() as int) == self.labels@);
        DomainName { labels, fqdn: self.fqdn }
    }

    /// Equality as `Name`'s `PartialEq` defines it.
    pub fn equals(&self, other: &DomainName) -> (r: bool)
        ensures
            r == name_eq(self@, other@),
    {
        if self.fqdn != other.fqdn || self.labels.len() != other.labels.len() {
            return false;
        }
        let mut i: usize = 0;
        while i < self.labels.len()
            invariant
                i <= self.labels.len() == other.labels.len(),
                forall|k: int| 0 <= k < i ==> label_eq(#[trigger] self@.labels[k], other@.labels[k]),
            decreases self.labels.len() - i,
        {
            if !labels_equal(&self.labels[i], &other.labels[i]) {
                assert(!label_eq(self@.labels[i as int], other@.labels[i as int]));
                return false;
            }
            i = i + 1;
        }
        true
    }

    /// `self` is `name` or an ancestor of it (`Name::zone_of`).
    pub fn is_zone_of(&self, name: &DomainName) -> (r: bool)
        ensures
            r == zone_of(self@, name@),
    {
        let z = self.labels.len();
        let n = name.labels.len();
        if z == 0 {
            return true;
        }
        if n == 0 || z > n {
            return false;
        }
        let mut i: usize = 0;
        while i < z
            invariant
                i <= z <= n,
                z == self.labels.len(),
                n == name.labels.len(),
                forall|k: int|
                    0 <= k < i ==> label_eq(#[trigger] self@.labels[z - 1 - k], name@.labels[n - 1 - k]),
            decreases z - i,
        {
            if !labels_equal(&self.labels[z - 1 - i], &name.labels[n - 1 - i]) {
                assert(!label_eq(self@.labels[z - 1 - i], name@.labels[n - 1 - i]));
                return false;
            }
            i = i + 1;
        }
        true
    }
}

/// A zone contains every name whose trailing labels are the zone's labels,
/// ignoring ASCII case; in particular every name is a zone of itself, and
/// of each name whose labels equal its own ignoring case.
pub proof fn lemma_zone_of_trailing_labels(zone: NameView, name: NameView)
    requires
        zone.labels.len() <= name.labels.len(),
        forall|i: int|
            0 <= i < zone.labels.len() ==> label_eq(
                #[trigger] zone.labels[i],
                name.labels[name.labels.len() - zone.labels.len() + i],
            ),
    ensures
        zone_of(zone, name),
{
    let z = zone.labels.len() as int;
    let n = name.labels.len() as int;
    assert forall|i: int| 0 <= i < z implies label_eq(
        #[trigger] zone.labels[z - 1 - i],
        name.labels[n - 1 - i],
    ) by {
        assert(label_eq(zone.labels[z - 1 - i], name.labels[n - z + (z - 1 - i)]));
    }
}

/// Every name is a zone of itself.
pub proof fn lemma_zone_of_self(name: NameView)
    ensures
        zone_of(name, name),
{
    assert forall|i: int| 0 <= i < name.labels.len() implies label_eq(
        #[trigger] name.labels[i],
        name.labels[name.labels.len() - name.labels.len() + i],
    ) by {
        assert(name.labels[name.labels.len() - name.labels.len() + i] == name.labels[i]);
    }
    lemma_zone_of_trailing_labels(name, name);
}

/// Conversely, a zone with labels contains a name only when its labels are
/// the name's trailing labels, ignoring ASCII case.
pub proof fn lemma_zone_of_means_trailing_labels(zone: NameView, name: NameView)
    requires
        zone_of(zone, name),
        zone.labels.len() > 0,
    ensures
        zone.labels.len() <= name.labels.len(),
        forall|i: int|
            0 <= i < zone.labels.len() ==> label_eq(
                #[trigger] zone.labels[i],
                name.labels[name.labels.len() - zone.labels.len() + i],
            ),
{
    let z = zone.labels.len() as int;
    let n = name.labels.len() as int;
    assert forall|i: int| 0 <= i < z implies label_eq(#[trigger] zone.labels[i], name.labels[n - z + i]) by {
        let j = z - 1 - i;
        assert(label_eq(zone.labels[z - 1 - j], name.labels[n - 1 - j]));
    }
}

} // verus!
