//! The cache listing of `GET /api/v1/cache`: the memory cache's live entries
//! merged with the persistent cache's rows, one entry per name and type,
//! sorted by name.
use vstd::prelude::*;
use crate::mydns::db::cache::CacheRow;
use crate::names::{chars_of, labels_view, same_text};

verus! {

broadcast use vstd::string::group_string_axioms;

/// One listed cache entry.
#[derive(Debug)]
pub struct CacheEntryInfo {
    pub name: String,
    pub record_type: String,
    pub ttl_remaining: u32,
    pub values: Vec<String>,
}

/// A listed entry as a mathematical value.
pub struct InfoView {
    pub name: Seq<char>,
    pub rtype: Seq<char>,
    pub ttl: u32,
    pub values: Seq<Seq<char>>,
}

pub open spec fn info_view(e: CacheEntryInfo) -> InfoView {
    InfoView { name: e.name@, rtype: e.record_type@, ttl: e.ttl_remaining, values: labels_view(e.values@) }
}

pub open spec fn infos_view(v: Seq<CacheEntryInfo>) -> Seq<InfoView> {
    v.map_values(|e: CacheEntryInfo| info_view(e))
}

/// The position of the entry for (`name`, `rtype`), if any.
pub open spec fn key_index(s: Seq<InfoView>, name: Seq<char>, rtype: Seq<char>) -> Option<int> {
    if exists|i: int| 0 <= i < s.len() && s[i].name == name && s[i].rtype == rtype {
        Some(choose|i: int| 0 <= i < s.len() && s[i].name == name && s[i].rtype == rtype)
    } else {
        None
    }
}

/// No name and type is listed twice.
pub open spec fn distinct_keys(s: Seq<InfoView>) -> bool {
    forall|i: int, j: int|
        0 <= i < j < s.len() ==> !(#[trigger] s[i].name == #[trigger] s[j].name && s[i].rtype == s[j].rtype)
}

/// The listing after a memory entry: it replaces the entry of its key, or
/// is added.
pub open spec fn with_memory(s: Seq<InfoView>, e: InfoView) -> Seq<InfoView> {
    match key_index(s, e.name, e.rtype) {
        Some(i) => s.update(i, e),
        None => s.push(e),
    }
}

/// The whole seconds left of a row at `now`, none when it has expired
/// (cut to 32 bits).
pub open spec fn row_ttl(expires_at: i64, now: i64) -> u32 {
    (if expires_at - now > 0 {
        expires_at - now
    } else {
        0
    }) as u32
}

/// The listing after a persistent row: the entry of its key gains the value
/// (once) and keeps the smaller TTL, or a new entry holds just the row.
pub open spec fn with_row(s: Seq<InfoView>, name: Seq<char>, rtype: Seq<char>, value: Seq<char>, ttl: u32) -> Seq<
    InfoView,
> {
    match key_index(s, name, rtype) {
        Some(i) => s.update(
            i,
            InfoView {
                values: if s[i].values.contains(value) {
                    s[i].values
                } else {
                    s[i].values.push(value)
                },
                ttl: if ttl < s[i].ttl {
                    ttl
                } else {
                    s[i].ttl
                },
                ..s[i]
            },
        ),
        None => s.push(InfoView { name, rtype, ttl, values: seq![value] }),
    }
}

/// The listing of the memory entries.
pub open spec fn memory_listing(mem: Seq<InfoView>) -> Seq<InfoView>
    decreases mem.len(),
{
    if mem.len() == 0 {
        Seq::empty()
    } else {
        with_memory(memory_listing(mem.drop_last()), mem.last())
    }
}

/// The listing after the persistent rows, at `now`.
pub open spec fn merged_rows(s: Seq<InfoView>, rows: Seq<CacheRow>, now: i64) -> Seq<InfoView>
    decreases rows.len(),
{
    if rows.len() == 0 {
        s
    } else {
        let r = rows.last();
        with_row(merged_rows(s, rows.drop_last(), now), r.name@, r.record_type@, r.value@, row_ttl(r.expires_at, now))
    }
}

/// `a` comes before or with `b` in lexicographic order (that of `String`).
pub open spec fn text_le(a: Seq<char>, b: Seq<char>) -> bool
    decreases a.len(),
{
    if a.len() == 0 {
        true
    } else if b.len() == 0 {
        false
    } else if a[0] != b[0] {
        a[0] < b[0]
    } else {
        text_le(a.drop_first(), b.drop_first())
    }
}

/// `e` inserted into `sorted` after every entry whose name is not greater.
pub open spec fn insert_by_name(sorted: Seq<InfoView>, e: InfoView) -> Seq<InfoView>
    decreases sorted.len(),
{
    if sorted.len() == 0 {
        seq![e]
    } else if text_le(sorted.last().name, e.name) {
        sorted.push(e)
    } else {
        insert_by_name(sorted.drop_last(), e).push(sorted.last())
    }
}

/// `s` stably sorted by name.
pub open spec fn sorted_by_name(s: Seq<InfoView>) -> Seq<InfoView>
    decreases s.len(),
{
    if s.len() == 0 {
        Seq::empty()
    } else {
        insert_by_name(sorted_by_name(s.drop_last()), s.last())
    }
}

/// Whether `a` comes before or with `b` in lexicographic order.
fn text_before_or_equal(a: &str, b: &str) -> (r: bool)
    ensures
        r == text_le(a@, b@),
{
    let x = chars_of(a);
    let y = chars_of(b);
    let mut i: usize = 0;
    assert(x@.skip(0) == x@ && y@.skip(0) == y@);
    while i < x.len() && i < y.len() && x[i] == y[i]
        invariant
            i <= x.len(),
            i <= y.len(),
            x@ == a@,
            y@ == b@,
            text_le(x@, y@) == text_le(x@.skip(i as int), y@.skip(i as int)),
        decreases x.len() - i,
    {
        assert(x@.skip(i as int).drop_first() == x@.skip(i + 1));
        assert(y@.skip(i as int).drop_first() == y@.skip(i + 1));
        i = i + 1;
    }
    assert(x@.skip(0) == x@ && y@.skip(0) == y@);
    if i == x.len() {
        true
    } else if i == y.len() {
        false
    } else {
        assert(x@.skip(i as int)[0] == x@[i as int] && y@.skip(i as int)[0] == y@[i as int]);
        x[i] < y[i]
    }
}

fn copy_strings(v: &Vec<String>) -> (r: Vec<String>)
    ensures
        labels_view(r@) == labels_view(v@),
{
    let mut out: Vec<String> = Vec::new();
    let mut i: usize = 0;
    while i < v.len()
        invariant
            i <= v.len(),
            labels_view(out@) == labels_view(v@.take(i as int)),
        decreases v.len() - i,
    {
        let ghost before = out@;
        let c = v[i].clone();
        assert(c@ == v@[i as int]@);
        out.push(c);
        assert(labels_view(out@) =~= labels_view(before).push(v@[i as int]@));
        assert(labels_view(v@.take(i + 1)) =~= labels_view(v@.take(i as int)).push(v@[i as int]@));
        i = i + 1;
    }
    assert(v@.take(v.len() as int) == v@);
    out
}

/// The position of the entry for (`name`, `rtype`), if any.
fn find_key(list: &Vec<CacheEntryInfo>, name: &str, rtype: &str) -> (r: Option<usize>)
    requires
        distinct_keys(infos_view(list@)),
    ensures
        match r {
            Some(i) => key_index(infos_view(list@), name@, rtype@) == Some(i as int),
            None => key_index(infos_view(list@), name@, rtype@) is None,
        },
{
    let ghost s = infos_view(list@);
    let mut i: usize = 0;
    while i < list.len()
        invariant
            i <= list.len(),
            s == infos_view(list@),
            distinct_keys(s),
            forall|t: int| 0 <= t < i ==> !(#[trigger] s[t].name == name@ && s[t].rtype == rtype@),
        decreases list.len() - i,
    {
        assert(s[i as int] == info_view(list@[i as int]));
        if same_text(list[i].name.as_str(), name) && same_text(list[i].record_type.as_str(), rtype) {
            let ghost w = choose|k: int| 0 <= k < s.len() && s[k].name == name@ && s[k].rtype == rtype@;
            assert(w == i) by {
                if w < i {
                    assert(!(s[w].name == name@ && s[w].rtype == rtype@));
                } else if w > i {
                    assert(!(s[i as int].name == s[w].name && s[i as int].rtype == s[w].rtype));
                }
            }
            return Some(i);
        }
        i = i + 1;
    }
    None
}

proof fn lemma_update_keeps_distinct(s: Seq<InfoView>, i: int, e: InfoView)
    requires
        distinct_keys(s),
        0 <= i < s.len(),
        e.name == s[i].name,
        e.rtype == s[i].rtype,
    ensures
        distinct_keys(s.update(i, e)),
{
    let u = s.update(i, e);
    assert forall|a: int, b: int| 0 <= a < b < u.len() implies !(#[trigger] u[a].name == #[trigger] u[b].name && u[a].rtype
        == u[b].rtype) by {
        assert(u[a].name == s[a].name && u[a].rtype == s[a].rtype);
        assert(u[b].name == s[b].name && u[b].rtype == s[b].rtype);
    }
}

proof fn lemma_push_keeps_distinct(s: Seq<InfoView>, e: InfoView)
    requires
        distinct_keys(s),
        key_index(s, e.name, e.rtype) is None,
    ensures
        distinct_keys(s.push(e)),
{
    let u = s.push(e);
    assert forall|a: int, b: int| 0 <= a < b < u.len() implies !(#[trigger] u[a].name == #[trigger] u[b].name && u[a].rtype
        == u[b].rtype) by {
        if b == s.len() {
            assert(!(s[a].name == e.name && s[a].rtype == e.rtype));
        }
    }
}

/// `s` holds `v`.
fn holds_value(s: &Vec<String>, v: &str) -> (b: bool)
    ensures
        b == labels_view(s@).contains(v@),
{
    let mut i: usize = 0;
    while i < s.len()
        invariant
            i <= s.len(),
            forall|t: int| 0 <= t < i ==> labels_view(s@)[t] != v@,
        decreases s.len() - i,
    {
        if same_text(s[i].as_str(), v) {
            assert(labels_view(s@)[i as int] == v@);
            return true;
        }
        i = i + 1;
    }
    false
}

/// Inserts `e` into `out` after every entry whose name is not greater.
fn insert_sorted(out: &mut Vec<CacheEntryInfo>, e: CacheEntryInfo)
    ensures
        infos_view(final(out)@) == insert_by_name(infos_view(old(out)@), info_view(e)),
{
    let ghost s = infos_view(out@);
    let ghost ev = info_view(e);
    let mut j: usize = out.len();
    assert(s.take(j as int) == s && s.skip(j as int) =~= Seq::<InfoView>::empty());
    assert(insert_by_name(s, ev) == insert_by_name(s.take(j as int), ev) + s.skip(j as int));
    while j > 0 && !text_before_or_equal(out[j - 1].name.as_str(), e.name.as_str())
        invariant
            j <= out.len(),
            s == infos_view(out@),
            ev == info_view(e),
            insert_by_name(s, ev) == insert_by_name(s.take(j as int), ev) + s.skip(j as int),
        decreases j,
    {
        let ghost p = s.take(j as int);
        assert(p.last() == s[j - 1]);
        assert(s[j - 1] == info_view(out@[j - 1]));
        assert(p.drop_last() == s.take(j - 1));
        assert(insert_by_name(p, ev) == insert_by_name(s.take(j - 1), ev).push(s[j - 1]));
        assert(s.skip(j - 1) =~= seq![s[j - 1]] + s.skip(j as int));
        assert(insert_by_name(s.take(j - 1), ev).push(s[j - 1]) + s.skip(j as int) =~= insert_by_name(
            s.take(j - 1),
            ev,
        ) + s.skip(j - 1));
        j = j - 1;
    }
    proof {
        if j == 0 {
            assert(s.take(0) =~= Seq::<InfoView>::empty());
        } else {
            assert(s.take(j as int).last() == s[j - 1]);
            assert(s[j - 1] == info_view(out@[j - 1]));
        }
    }
    let ghost before = out@;
    out.insert(j, e);
    assert(infos_view(out@) =~= s.take(j as int).push(ev) + s.skip(j as int)) by {
        assert forall|k: int| 0 <= k < out@.len() implies #[trigger] infos_view(out@)[k] == (s.take(j as int).push(
            ev,
        ) + s.skip(j as int))[k] by {
            if k < j {
                assert(out@[k] == before[k]);
            } else if k == j {
                assert(out@[k] == e);
            } else {
                assert(out@[k] == before[k - 1]);
            }
        }
    }
}

/// The cache listing: `memory` (the memory cache's live entries) merged with
/// the persistent `rows` at `now` (seconds), then sorted by name. An entry
/// of the memory cache replaces an earlier one of its name and type; a row
/// adds its value to its entry (once) and keeps the smaller remaining TTL.
pub fn merge_cache_listing(memory: Vec<CacheEntryInfo>, rows: &Vec<CacheRow>, now: i64) -> (r: Vec<CacheEntryInfo>)
    requires
        forall|i: int| 0 <= i < rows@.len() ==> i64::MIN <= #[trigger] rows@[i].expires_at - now <= i64::MAX,
    ensures
        infos_view(r@) == sorted_by_name(merged_rows(memory_listing(infos_view(memory@)), rows@, now)),
        names_sorted(infos_view(r@)),
        distinct_keys(infos_view(r@)),
{
    let ghost mv = infos_view(memory@);
    let mut list: Vec<CacheEntryInfo> = Vec::new();
    let total = memory.len();
    let mut rest = memory;
    let mut i: usize = 0;
    assert(mv.take(0) =~= Seq::<InfoView>::empty());
    assert(infos_view(list@) =~= Seq::<InfoView>::empty());
    assert(infos_view(rest@) =~= mv.skip(0));
    while rest.len() > 0
        invariant
            i <= mv.len(),
            mv.len() == total,
            infos_view(rest@) == mv.skip(i as int),
            infos_view(list@) == memory_listing(mv.take(i as int)),
            distinct_keys(infos_view(list@)),
        decreases rest.len(),
    {
        let ghost prev = rest@;
        assert(i < mv.len()) by {
            assert(mv.skip(i as int).len() == rest.len());
        }
        let e = rest.remove(0);
        assert(info_view(e) == mv[i as int]) by {
            assert(infos_view(prev)[0] == info_view(prev[0]));
            assert(mv.skip(i as int)[0] == mv[i as int]);
        }
        assert(infos_view(prev).len() == prev.len());
        assert(rest@.len() == prev.len() - 1);
        assert(infos_view(rest@) =~= mv.skip(i + 1)) by {
            assert forall|k: int| 0 <= k < rest@.len() implies #[trigger] infos_view(rest@)[k] == mv.skip(i + 1)[k] by {
                assert(rest@[k] == prev[k + 1]);
                assert(infos_view(prev)[k + 1] == info_view(prev[k + 1]));
                assert(mv.skip(i as int)[k + 1] == mv.skip(i + 1)[k]);
            }
        }
        assert(mv.take(i + 1).drop_last() == mv.take(i as int));
        assert(mv.take(i + 1).last() == mv[i as int]);
        let ghost s = infos_view(list@);
        let ghost ev = info_view(e);
        match find_key(&list, e.name.as_str(), e.record_type.as_str()) {
            Some(k) => {
                list.set(k, e);
                assert(infos_view(list@) =~= s.update(k as int, ev));
                proof {
                    lemma_update_keeps_distinct(s, k as int, ev);
                }
            },
            None => {
                list.push(e);
                assert(infos_view(list@) =~= s.push(ev));
                proof {
                    lemma_push_keeps_distinct(s, ev);
                }
            },
        }
        i = i + 1;
    }
    assert(i == mv.len()) by {
        assert(mv.skip(i as int).len() == 0);
    }
    assert(mv.take(mv.len() as int) == mv);
    let ghost base = infos_view(list@);
    let mut j: usize = 0;
    assert(rows@.take(0) =~= Seq::<CacheRow>::empty());
    while j < rows.len()
        invariant
            j <= rows.len(),
            infos_view(list@) == merged_rows(base, rows@.take(j as int), now),
            distinct_keys(infos_view(list@)),
            forall|t: int| 0 <= t < rows@.len() ==> i64::MIN <= #[trigger] rows@[t].expires_at - now <= i64::MAX,
        decreases rows.len() - j,
    {
        let row = &rows[j];
        assert(rows@.take(j + 1).drop_last() == rows@.take(j as int));
        assert(rows@.take(j + 1).last() == rows@[j as int]);
        assert(i64::MIN <= rows@[j as int].expires_at - now <= i64::MAX);
        let diff = row.expires_at - now;
        let ttl: u32 = if diff > 0 { diff as u32 } else { 0 };
        assert(ttl == row_ttl(row.expires_at, now));
        let ghost s = infos_view(list@);
        match find_key(&list, row.name.as_str(), row.record_type.as_str()) {
            Some(k) => {
                assert(s[k as int] == info_view(list@[k as int]));
                let present = holds_value(&list[k].values, row.value.as_str());
                let old_ttl = list[k].ttl_remaining;
                let mut values = copy_strings(&list[k].values);
                if !present {
                    let ghost vb = values@;
                    values.push(row.value.clone());
                    assert(labels_view(values@) =~= labels_view(vb).push(row.value@));
                }
                let entry = CacheEntryInfo {
                    name: list[k].name.clone(),
                    record_type: list[k].record_type.clone(),
                    ttl_remaining: if ttl < old_ttl { ttl } else { old_ttl },
                    values,
                };
                let ghost ev = info_view(entry);
                list.set(k, entry);
                assert(infos_view(list@) =~= s.update(k as int, ev));
                proof {
                    lemma_update_keeps_distinct(s, k as int, ev);
                }
            },
            None => {
                let mut values: Vec<String> = Vec::new();
                values.push(row.value.clone());
                assert(labels_view(values@) =~= seq![row.value@]);
                let entry = CacheEntryInfo {
                    name: row.name.clone(),
                    record_type: row.record_type.clone(),
                    ttl_remaining: ttl,
                    values,
                };
                let ghost ev = info_view(entry);
                list.push(entry);
                assert(infos_view(list@) =~= s.push(ev));
                proof {
                    lemma_push_keeps_distinct(s, ev);
                }
            },
        }
        j = j + 1;
    }
    assert(rows@.take(rows.len() as int) == rows@);
    let ghost merged = infos_view(list@);
    let mut out: Vec<CacheEntryInfo> = Vec::new();
    let count = list.len();
    let mut src = list;
    let mut n: usize = 0;
    assert(merged.take(0) =~= Seq::<InfoView>::empty());
    assert(infos_view(out@) =~= Seq::<InfoView>::empty());
    assert(infos_view(src@) =~= merged.skip(0));
    while src.len() > 0
        invariant
            n <= merged.len(),
            merged.len() == count,
            infos_view(src@) == merged.skip(n as int),
            infos_view(out@) == sorted_by_name(merged.take(n as int)),
        decreases src.len(),
    {
        let ghost prev = src@;
        assert(n < merged.len()) by {
            assert(merged.skip(n as int).len() == src.len());
        }
        let e = src.remove(0);
        assert(info_view(e) == merged[n as int]) by {
            assert(infos_view(prev)[0] == info_view(prev[0]));
            assert(merged.skip(n as int)[0] == merged[n as int]);
        }
        assert(infos_view(prev).len() == prev.len());
        assert(src@.len() == prev.len() - 1);
        assert(infos_view(src@) =~= merged.skip(n + 1)) by {
            assert forall|k: int| 0 <= k < src@.len() implies #[trigger] infos_view(src@)[k] == merged.skip(n + 1)[k] by {
                assert(src@[k] == prev[k + 1]);
                assert(infos_view(prev)[k + 1] == info_view(prev[k + 1]));
                assert(merged.skip(n as int)[k + 1] == merged.skip(n + 1)[k]);
            }
        }
        assert(merged.take(n + 1).drop_last() == merged.take(n as int));
        assert(merged.take(n + 1).last() == merged[n as int]);
        insert_sorted(&mut out, e);
        n = n + 1;
    }
    assert(n == merged.len()) by {
        assert(merged.skip(n as int).len() == 0);
    }
    assert(merged.take(merged.len() as int) == merged);
    proof {
        lemma_listing_sorted_and_distinct(mv, rows@, now);
    }
    out
}


/// The entries are in order of name.
pub open spec fn names_sorted(s: Seq<InfoView>) -> bool {
    forall|i: int, j: int| 0 <= i < j < s.len() ==> text_le(#[trigger] s[i].name, #[trigger] s[j].name)
}

proof fn lemma_text_le_total(a: Seq<char>, b: Seq<char>)
    ensures
        text_le(a, b) || text_le(b, a),
    decreases a.len(),
{
    if a.len() > 0 && b.len() > 0 && a[0] == b[0] {
        lemma_text_le_total(a.drop_first(), b.drop_first());
    }
}

proof fn lemma_text_le_trans(a: Seq<char>, b: Seq<char>, c: Seq<char>)
    requires
        text_le(a, b),
        text_le(b, c),
    ensures
        text_le(a, c),
    decreases a.len(),
{
    if a.len() > 0 && b.len() > 0 && c.len() > 0 && a[0] == b[0] && b[0] == c[0] {
        lemma_text_le_trans(a.drop_first(), b.drop_first(), c.drop_first());
    }
}

proof fn lemma_insert_by_name(t: Seq<InfoView>, e: InfoView)
    requires
        names_sorted(t),
    ensures
        names_sorted(insert_by_name(t, e)),
        insert_by_name(t, e).to_multiset() =~= t.to_multiset().insert(e),
    decreases t.len(),
{
    broadcast use vstd::seq_lib::group_to_multiset_ensures;

    if t.len() == 0 {
        assert(seq![e] =~= Seq::<InfoView>::empty().push(e));
    } else if text_le(t.last().name, e.name) {
        let r = t.push(e);
        assert forall|i: int, j: int| 0 <= i < j < r.len() implies text_le(#[trigger] r[i].name, #[trigger] r[j].name) by {
            if j == t.len() && i < t.len() - 1 {
                assert(text_le(t[i].name, t[t.len() - 1].name));
                lemma_text_le_trans(t[i].name, t.last().name, e.name);
            }
        }
    } else {
        let p = t.drop_last();
        let l = t.last();
        assert(names_sorted(p)) by {
            assert forall|i: int, j: int| 0 <= i < j < p.len() implies text_le(#[trigger] p[i].name, #[trigger] p[j].name) by {
                assert(p[i] == t[i] && p[j] == t[j]);
            }
        }
        lemma_insert_by_name(p, e);
        let q = insert_by_name(p, e);
        let r = q.push(l);
        lemma_text_le_total(l.name, e.name);
        assert forall|k: int| 0 <= k < q.len() implies text_le(#[trigger] q[k].name, l.name) by {
            assert(q.contains(q[k]));
            assert(q.to_multiset().count(q[k]) > 0);
            if q[k] != e {
                assert(p.to_multiset().count(q[k]) > 0);
                assert(p.contains(q[k]));
                let m = choose|m: int| 0 <= m < p.len() && p[m] == q[k];
                assert(t[m] == p[m]);
                assert(text_le(t[m].name, t[t.len() - 1].name));
            }
        }
        assert forall|i: int, j: int| 0 <= i < j < r.len() implies text_le(#[trigger] r[i].name, #[trigger] r[j].name) by {
            if j < q.len() {
                assert(r[i] == q[i] && r[j] == q[j]);
            } else {
                assert(r[i] == q[i]);
            }
        }
        assert(t =~= p.push(l));
    }
}

proof fn lemma_sorted_by_name(s: Seq<InfoView>)
    ensures
        names_sorted(sorted_by_name(s)),
        sorted_by_name(s).to_multiset() =~= s.to_multiset(),
    decreases s.len(),
{
    broadcast use vstd::seq_lib::group_to_multiset_ensures;

    if s.len() > 0 {
        lemma_sorted_by_name(s.drop_last());
        lemma_insert_by_name(sorted_by_name(s.drop_last()), s.last());
        assert(s =~= s.drop_last().push(s.last()));
    }
}

proof fn lemma_memory_listing_distinct(mem: Seq<InfoView>)
    ensures
        distinct_keys(memory_listing(mem)),
    decreases mem.len(),
{
    if mem.len() > 0 {
        lemma_memory_listing_distinct(mem.drop_last());
        let s = memory_listing(mem.drop_last());
        let e = mem.last();
        match key_index(s, e.name, e.rtype) {
            Some(i) => lemma_update_keeps_distinct(s, i, e),
            None => lemma_push_keeps_distinct(s, e),
        }
    }
}

proof fn lemma_merged_rows_distinct(s: Seq<InfoView>, rows: Seq<CacheRow>, now: i64)
    requires
        distinct_keys(s),
    ensures
        distinct_keys(merged_rows(s, rows, now)),
    decreases rows.len(),
{
    if rows.len() > 0 {
        lemma_merged_rows_distinct(s, rows.drop_last(), now);
        let m = merged_rows(s, rows.drop_last(), now);
        let r = rows.last();
        let ttl = row_ttl(r.expires_at, now);
        match key_index(m, r.name@, r.record_type@) {
            Some(i) => lemma_update_keeps_distinct(
                m,
                i,
                InfoView {
                    values: if m[i].values.contains(r.value@) {
                        m[i].values
                    } else {
                        m[i].values.push(r.value@)
                    },
                    ttl: if ttl < m[i].ttl {
                        ttl
                    } else {
                        m[i].ttl
                    },
                    ..m[i]
                },
            ),
            None => lemma_push_keeps_distinct(m, InfoView { name: r.name@, rtype: r.record_type@, ttl, values: seq![r.value@] }),
        }
    }
}

proof fn lemma_sorting_keeps_distinct(s: Seq<InfoView>)
    requires
        distinct_keys(s),
    ensures
        distinct_keys(sorted_by_name(s)),
{
    broadcast use vstd::seq_lib::group_to_multiset_ensures;

    let r = sorted_by_name(s);
    lemma_sorted_by_name(s);
    assert(s.no_duplicates()) by {
        assert forall|i: int, j: int| 0 <= i < s.len() && 0 <= j < s.len() && i != j implies s[i] != s[j] by {
            if i < j {
                assert(!(s[i].name == s[j].name && s[i].rtype == s[j].rtype));
            } else {
                assert(!(s[j].name == s[i].name && s[j].rtype == s[i].rtype));
            }
        }
    }
    s.lemma_multiset_has_no_duplicates();
    r.lemma_multiset_has_no_duplicates_conv();
    assert forall|i: int, j: int| 0 <= i < j < r.len() implies !(#[trigger] r[i].name == #[trigger] r[j].name
        && r[i].rtype == r[j].rtype) by {
        assert(r.contains(r[i]) && r.contains(r[j]));
        assert(r.to_multiset().count(r[i]) > 0 && r.to_multiset().count(r[j]) > 0);
        assert(s.contains(r[i]) && s.contains(r[j]));
        let a = choose|a: int| 0 <= a < s.len() && s[a] == r[i];
        let b = choose|b: int| 0 <= b < s.len() && s[b] == r[j];
        assert(r[i] != r[j]);
        if a < b {
            assert(!(s[a].name == s[b].name && s[a].rtype == s[b].rtype));
        } else {
            assert(!(s[b].name == s[a].name && s[b].rtype == s[a].rtype));
        }
    }
}

/// The cache listing is in order of name, lists each name and type once,
/// and holds exactly the merged entries of the memory cache and the rows.
pub proof fn lemma_listing_sorted_and_distinct(mem: Seq<InfoView>, rows: Seq<CacheRow>, now: i64)
    ensures
        names_sorted(sorted_by_name(merged_rows(memory_listing(mem), rows, now))),
        distinct_keys(sorted_by_name(merged_rows(memory_listing(mem), rows, now))),
        sorted_by_name(merged_rows(memory_listing(mem), rows, now)).to_multiset() =~= merged_rows(
            memory_listing(mem),
            rows,
            now,
        ).to_multiset(),
{
    let merged = merged_rows(memory_listing(mem), rows, now);
    lemma_memory_listing_distinct(mem);
    lemma_merged_rows_distinct(memory_listing(mem), rows, now);
    lemma_sorted_by_name(merged);
    lemma_sorting_keeps_distinct(merged);
}

} // verus!
