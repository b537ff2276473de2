//! Text primitives shared by the zone, blocklist and record indexes: DNS
//! name normalisation (trailing dots and case) and label splitting.
use vstd::prelude::*;

verus! {

broadcast use vstd::string::group_string_axioms;

/// `s` without its trailing run of `'.'` characters.
pub open spec fn strip_trailing_dots(s: Seq<char>) -> Seq<char>
    decreases s.len(),
{
    if s.len() > 0 && s.last() == '.' {
        strip_trailing_dots(s.drop_last())
    } else {
        s
    }
}

/// What `str::to_lowercase` returns for a string with characters `s`
/// (Unicode lowercase mapping; it depends on `s` alone).
pub uninterp spec fn lowercase(s: Seq<char>) -> Seq<char>;

/// What `str::to_uppercase` returns for a string with characters `s`
/// (Unicode uppercase mapping; it depends on `s` alone).
pub uninterp spec fn uppercase(s: Seq<char>) -> Seq<char>;

/// The canonical form of a DNS name used by every index of the server:
/// trailing dots removed, then lowercased.
pub open spec fn normalize(s: Seq<char>) -> Seq<char> {
    lowercase(strip_trailing_dots(s))
}

/// The pieces of `s` between `sep` separators, as `str::split` yields them:
/// there is always at least one piece, and empty pieces are kept.
pub open spec fn split_char(s: Seq<char>, sep: char) -> Seq<Seq<char>>
    decreases s.len(),
{
    if s.len() == 0 {
        seq![Seq::<char>::empty()]
    } else {
        let prev = split_char(s.drop_last(), sep);
        if s.last() == sep {
            prev.push(Seq::<char>::empty())
        } else {
            prev.update(prev.len() - 1, prev.last().push(s.last()))
        }
    }
}

/// The pieces of `s` between `'.'` separators.
pub open spec fn split_dots(s: Seq<char>) -> Seq<Seq<char>> {
    split_char(s, '.')
}

/// `suffix` is a trailing part of `s`.
pub open spec fn is_suffix_of<A>(suffix: Seq<A>, s: Seq<A>) -> bool {
    &&& suffix.len() <= s.len()
    &&& s.subrange(s.len() - suffix.len(), s.len() as int) == suffix
}

/// The character sequences of a sequence of strings.
pub open spec fn labels_view(v: Seq<String>) -> Seq<Seq<char>> {
    v.map_values(|x: String| x@)
}

/// The labels of a DNS name once normalised.
pub open spec fn name_labels(s: Seq<char>) -> Seq<Seq<char>> {
    split_dots(normalize(s))
}

/// The Unicode `White_Space` property, which `char::is_whitespace` and
/// `str::trim` use.
pub open spec fn is_space(c: char) -> bool {
    ||| ('\u{9}' <= c && c <= '\u{d}')
    ||| c == ' '
    ||| c == '\u{85}'
    ||| c == '\u{a0}'
    ||| c == '\u{1680}'
    ||| ('\u{2000}' <= c && c <= '\u{200a}')
    ||| c == '\u{2028}'
    ||| c == '\u{2029}'
    ||| c == '\u{202f}'
    ||| c == '\u{205f}'
    ||| c == '\u{3000}'
}

/// `s` without its leading whitespace.
pub open spec fn trim_start_spaces(s: Seq<char>) -> Seq<char>
    decreases s.len(),
{
    if s.len() > 0 && is_space(s[0]) {
        trim_start_spaces(s.drop_first())
    } else {
        s
    }
}

/// `s` without its trailing whitespace.
pub open spec fn trim_end_spaces(s: Seq<char>) -> Seq<char>
    decreases s.len(),
{
    if s.len() > 0 && is_space(s.last()) {
        trim_end_spaces(s.drop_last())
    } else {
        s
    }
}

/// `s` without leading and trailing whitespace, as `str::trim` returns it.
pub open spec fn trim_spaces(s: Seq<char>) -> Seq<char> {
    trim_end_spaces(trim_start_spaces(s))
}

/// Splitting always yields at least one piece.
pub proof fn lemma_split_char_nonempty(s: Seq<char>, sep: char)
    ensures
        split_char(s, sep).len() >= 1,
    decreases s.len(),
{
    if s.len() > 0 {
        lemma_split_char_nonempty(s.drop_last(), sep);
    }
}

/// The pieces `parts` joined with `sep` between them.
pub open spec fn join_char(parts: Seq<Seq<char>>, sep: char) -> Seq<char>
    decreases parts.len(),
{
    if parts.len() == 0 {
        Seq::empty()
    } else if parts.len() == 1 {
        parts[0]
    } else {
        join_char(parts.drop_last(), sep) + seq![sep] + parts.last()
    }
}

/// Joining the pieces of `s` with their separator gives back `s`.
pub proof fn lemma_join_split(s: Seq<char>, sep: char)
    ensures
        join_char(split_char(s, sep), sep) == s,
    decreases s.len(),
{
    if s.len() == 0 {
        assert(split_char(s, sep) == seq![Seq::<char>::empty()]);
        assert(s =~= Seq::<char>::empty());
    } else {
        let p = s.drop_last();
        let c = s.last();
        lemma_join_split(p, sep);
        lemma_split_char_nonempty(p, sep);
        let prev = split_char(p, sep);
        if c == sep {
            let q = prev.push(Seq::<char>::empty());
            assert(q.drop_last() =~= prev);
            assert(join_char(q, sep) == join_char(prev, sep) + seq![sep] + Seq::<char>::empty());
            assert(p + seq![sep] + Seq::<char>::empty() =~= s);
        } else {
            let q = prev.update(prev.len() - 1, prev.last().push(c));
            if prev.len() == 1 {
                assert(join_char(prev, sep) == prev[0]);
                assert(q[0] == prev[0].push(c));
                assert(prev[0].push(c) =~= s);
            } else {
                assert(q.drop_last() =~= prev.drop_last());
                assert(q.last() == prev.last().push(c));
                let j = join_char(prev.drop_last(), sep);
                assert(join_char(prev, sep) == j + seq![sep] + prev.last());
                assert(j + seq![sep] + prev.last().push(c) =~= (j + seq![sep] + prev.last()).push(c));
                assert(p.push(c) =~= s);
            }
        }
    }
}

/// Different texts split into different pieces.
pub proof fn lemma_split_dots_injective(a: Seq<char>, b: Seq<char>)
    requires
        split_dots(a) == split_dots(b),
    ensures
        a == b,
{
    lemma_join_split(a, '.');
    lemma_join_split(b, '.');
}

/// `x` is `y`, or ends with a dot followed by `y`: as text, `y` itself or a
/// name below it.
pub open spec fn is_domain_or_subdomain(x: Seq<char>, y: Seq<char>) -> bool {
    ||| x == y
    ||| (x.len() > y.len() && x.subrange(x.len() - y.len() - 1, x.len() as int) == seq!['.'] + y)
}

proof fn lemma_join_concat(p: Seq<Seq<char>>, q: Seq<Seq<char>>, sep: char)
    requires
        p.len() > 0,
        q.len() > 0,
    ensures
        join_char(p + q, sep) == join_char(p, sep) + seq![sep] + join_char(q, sep),
    decreases q.len(),
{
    let pq = p + q;
    assert(pq.last() == q.last());
    if q.len() == 1 {
        assert(pq.drop_last() =~= p);
        assert(join_char(q, sep) == q[0]);
    } else {
        assert(pq.drop_last() =~= p + q.drop_last());
        lemma_join_concat(p, q.drop_last(), sep);
        assert(join_char(q, sep) == join_char(q.drop_last(), sep) + seq![sep] + q.last());
        assert(join_char(pq, sep) =~= join_char(p, sep) + seq![sep] + join_char(q, sep));
    }
}

proof fn lemma_split_concat(z: Seq<char>, y: Seq<char>, sep: char)
    ensures
        split_char(z + seq![sep] + y, sep) == split_char(z, sep) + split_char(y, sep),
    decreases y.len(),
{
    let x = z + seq![sep] + y;
    if y.len() == 0 {
        assert(x.drop_last() =~= z);
        assert(x.last() == sep);
        assert(split_char(y, sep) == seq![Seq::<char>::empty()]);
        assert(split_char(z, sep).push(Seq::<char>::empty()) =~= split_char(z, sep) + seq![Seq::<char>::empty()]);
    } else {
        let y0 = y.drop_last();
        assert(x.drop_last() =~= z + seq![sep] + y0);
        assert(x.last() == y.last());
        lemma_split_concat(z, y0, sep);
        lemma_split_char_nonempty(y0, sep);
        lemma_split_char_nonempty(z, sep);
        let a = split_char(z, sep);
        let b = split_char(y0, sep);
        if y.last() == sep {
            assert((a + b).push(Seq::<char>::empty()) =~= a + b.push(Seq::<char>::empty()));
        } else {
            let ab = a + b;
            assert(ab.last() == b.last());
            assert(ab.update(ab.len() - 1, ab.last().push(y.last())) =~= a + b.update(
                b.len() - 1,
                b.last().push(y.last()),
            ));
        }
    }
}

/// The labels of `y` are the trailing labels of `x` exactly when, as text,
/// `x` is `y` or ends with a dot followed by `y`.
pub proof fn lemma_label_suffix_is_text_suffix(x: Seq<char>, y: Seq<char>)
    ensures
        is_suffix_of(split_dots(y), split_dots(x)) <==> is_domain_or_subdomain(x, y),
{
    let sx = split_dots(x);
    let sy = split_dots(y);
    if is_suffix_of(sy, sx) {
        let p = sx.take(sx.len() - sy.len());
        assert(sx =~= p + sy);
        if p.len() == 0 {
            assert(sx =~= sy);
            lemma_split_dots_injective(x, y);
        } else {
            lemma_split_char_nonempty(y, '.');
            lemma_join_split(x, '.');
            lemma_join_split(y, '.');
            lemma_join_concat(p, sy, '.');
            let z = join_char(p, '.');
            assert(x == z + seq!['.'] + y);
            assert(x.subrange(x.len() - y.len() - 1, x.len() as int) =~= seq!['.'] + y);
        }
    }
    if is_domain_or_subdomain(x, y) {
        if x == y {
            assert(sx.subrange(sx.len() - sy.len(), sx.len() as int) =~= sx);
        } else {
            let z = x.take(x.len() - y.len() - 1);
            assert(x =~= z + (seq!['.'] + y));
            assert(z + (seq!['.'] + y) =~= z + seq!['.'] + y);
            lemma_split_concat(z, y, '.');
            let sz = split_dots(z);
            assert(sx == sz + sy);
            assert(sx.subrange(sx.len() - sy.len(), sx.len() as int) =~= sy);
        }
    }
}

/// Wraps `String::push`: appends `c`.
#[verifier::external_body]
pub(crate) fn push_char(s: &mut String, c: char)
    ensures
        final(s)@ == old(s)@.push(c),
{
    s.push(c)
}

/// Wraps `str::to_lowercase`, whose result is named by [`lowercase`].
#[verifier::external_body]
pub(crate) fn to_lowercase(s: &str) -> (r: String)
    ensures
        r@ == lowercase(s@),
{
    s.to_lowercase()
}

/// Wraps `str::to_uppercase`, whose result is named by [`uppercase`].
#[verifier::external_body]
pub(crate) fn to_uppercase(s: &str) -> (r: String)
    ensures
        r@ == uppercase(s@),
{
    s.to_uppercase()
}

/// The characters of `s`, in order.
pub fn chars_of(s: &str) -> (v: Vec<char>)
    ensures
        v@ == s@,
{
    let mut v: Vec<char> = Vec::new();
    for c in it: s.chars()
        invariant
            v@ == it.seq().take(it.index() as int),
            it.seq() == s@,
    {
        v.push(c);
    }
    v
}

/// A string holding `v[lo..hi]`.
pub fn string_from_chars(v: &Vec<char>, lo: usize, hi: usize) -> (r: String)
    requires
        lo <= hi <= v.len(),
    ensures
        r@ == v@.subrange(lo as int, hi as int),
{
    let mut r = String::new();
    let mut i = lo;
    while i < hi
        invariant
            lo <= i <= hi <= v.len(),
            r@ == v@.subrange(lo as int, i as int),
        decreases hi - i,
    {
        push_char(&mut r, v[i]);
        assert(v@.subrange(lo as int, i + 1) == v@.subrange(lo as int, i as int).push(v@[i as int]));
        i = i + 1;
    }
    r
}

/// `s` with its trailing dots removed.
pub fn trim_trailing_dots(s: &str) -> (r: String)
    ensures
        r@ == strip_trailing_dots(s@),
{
    let cs = chars_of(s);
    let mut end = cs.len();
    assert(cs@.take(end as int) =~= cs@);
    while end > 0 && cs[end - 1] == '.'
        invariant
            end <= cs.len(),
            strip_trailing_dots(cs@.take(end as int)) == strip_trailing_dots(s@),
            cs@ == s@,
        decreases end,
    {
        assert(cs@.take(end as int).drop_last() == cs@.take(end - 1));
        end = end - 1;
    }
    assert(cs@.take(cs.len() as int) == cs@);
    assert(strip_trailing_dots(cs@.take(end as int)) == cs@.take(end as int));
    string_from_chars(&cs, 0, end)
}

/// The canonical form of a DNS name: trailing dots removed, then lowercased.
pub fn normalize_name(s: &str) -> (r: String)
    ensures
        r@ == normalize(s@),
{
    let trimmed = trim_trailing_dots(s);
    to_lowercase(trimmed.as_str())
}

/// The `sep`-separated pieces of `s`, as `str::split` yields them.
pub fn split_on(s: &str, sep: char) -> (r: Vec<String>)
    ensures
        labels_view(r@) == split_char(s@, sep),
{
    let cs = chars_of(s);
    let mut labels: Vec<String> = Vec::new();
    let mut cur = String::new();
    let mut i: usize = 0;
    assert(cs@.take(0) =~= Seq::<char>::empty());
    assert(labels_view(labels@).push(cur@) =~= split_char(cs@.take(0), sep));
    while i < cs.len()
        invariant
            i <= cs.len(),
            cs@ == s@,
            labels_view(labels@).push(cur@) == split_char(cs@.take(i as int), sep),
        decreases cs.len() - i,
    {
        let c = cs[i];
        let ghost before = cs@.take(i as int);
        assert(cs@.take(i + 1).drop_last() == before);
        assert(cs@.take(i + 1).last() == c);
        proof {
            lemma_split_char_nonempty(before, sep);
        }
        if c == sep {
            let ghost old_labels = labels@;
            labels.push(cur);
            cur = String::new();
            assert(labels_view(labels@) =~= labels_view(old_labels).push(labels@.last()@));
            assert(labels_view(labels@).push(cur@) =~= split_char(cs@.take(i + 1), sep));
        } else {
            push_char(&mut cur, c);
            assert(labels_view(labels@).push(cur@) =~= split_char(cs@.take(i + 1), sep));
        }
        i = i + 1;
    }
    assert(cs@.take(cs.len() as int) == cs@);
    let ghost old_labels = labels@;
    labels.push(cur);
    assert(labels_view(labels@) =~= labels_view(old_labels).push(labels@.last()@));
    labels
}

/// The `'.'`-separated pieces of `s`, as `str::split('.')` yields them.
pub fn split_labels(s: &str) -> (r: Vec<String>)
    ensures
        labels_view(r@) == split_dots(s@),
{
    split_on(s, '.')
}

/// The labels of the normalised form of `s`.
pub fn normalized_labels(s: &str) -> (r: Vec<String>)
    ensures
        labels_view(r@) == name_labels(s@),
{
    let n = normalize_name(s);
    split_labels(n.as_str())
}

/// `suffix` is a trailing part of `labels`, label by label.
pub fn ends_with_labels(labels: &Vec<String>, suffix: &Vec<String>) -> (b: bool)
    ensures
        b == is_suffix_of(labels_view(suffix@), labels_view(labels@)),
{
    let n = labels.len();
    let k = suffix.len();
    if k > n {
        return false;
    }
    let off = n - k;
    let mut j: usize = 0;
    while j < k
        invariant
            j <= k <= n,
            off == n - k,
            n == labels.len(),
            k == suffix.len(),
            forall|t: int| 0 <= t < j ==> labels@[off + t]@ == suffix@[t]@,
        decreases k - j,
    {
        if labels[off + j] != suffix[j] {
            assert(labels_view(labels@).subrange(off as int, n as int)[j as int]
                != labels_view(suffix@)[j as int]);
            return false;
        }
        j = j + 1;
    }
    assert(labels_view(labels@).subrange(off as int, n as int) =~= labels_view(suffix@));
    true
}

/// `c` is whitespace.
pub fn is_space_char(c: char) -> (b: bool)
    ensures
        b == is_space(c),
{
    ('\u{9}' <= c && c <= '\u{d}') || c == ' ' || c == '\u{85}' || c == '\u{a0}' || c == '\u{1680}'
        || ('\u{2000}' <= c && c <= '\u{200a}') || c == '\u{2028}' || c == '\u{2029}' || c == '\u{202f}'
        || c == '\u{205f}' || c == '\u{3000}'
}

/// The bounds of `v` once leading and trailing whitespace are dropped.
pub fn trimmed_bounds(v: &Vec<char>) -> (r: (usize, usize))
    ensures
        r.0 <= r.1 <= v.len(),
        v@.subrange(r.0 as int, r.1 as int) == trim_spaces(v@),
{
    let mut lo: usize = 0;
    assert(v@.subrange(0, v.len() as int) =~= v@);
    while lo < v.len() && is_space_char(v[lo])
        invariant
            lo <= v.len(),
            trim_start_spaces(v@.subrange(lo as int, v.len() as int)) == trim_start_spaces(v@),
        decreases v.len() - lo,
    {
        assert(v@.subrange(lo as int, v.len() as int).drop_first() =~= v@.subrange(lo + 1, v.len() as int));
        lo = lo + 1;
    }
    let mut hi: usize = v.len();
    assert(trim_start_spaces(v@) == v@.subrange(lo as int, v.len() as int));
    while hi > lo && is_space_char(v[hi - 1])
        invariant
            lo <= hi <= v.len(),
            trim_end_spaces(v@.subrange(lo as int, hi as int)) == trim_spaces(v@),
        decreases hi,
    {
        assert(v@.subrange(lo as int, hi as int).drop_last() =~= v@.subrange(lo as int, hi - 1));
        hi = hi - 1;
    }
    (lo, hi)
}

/// `s` without leading and trailing whitespace.
pub fn trim_whitespace(s: &str) -> (r: String)
    ensures
        r@ == trim_spaces(s@),
{
    let cs = chars_of(s);
    let (lo, hi) = trimmed_bounds(&cs);
    string_from_chars(&cs, lo, hi)
}

/// ASCII whitespace as `char::is_ascii_whitespace` defines it: space, tab,
/// line feed, form feed and carriage return.
pub open spec fn is_ascii_space(c: char) -> bool {
    c == ' ' || c == '\t' || c == '\n' || c == '\u{c}' || c == '\r'
}

/// `s` without its leading ASCII whitespace.
pub open spec fn trim_ascii_start(s: Seq<char>) -> Seq<char>
    decreases s.len(),
{
    if s.len() > 0 && is_ascii_space(s[0]) {
        trim_ascii_start(s.drop_first())
    } else {
        s
    }
}

/// `s` without its trailing ASCII whitespace.
pub open spec fn trim_ascii_end(s: Seq<char>) -> Seq<char>
    decreases s.len(),
{
    if s.len() > 0 && is_ascii_space(s.last()) {
        trim_ascii_end(s.drop_last())
    } else {
        s
    }
}

/// `s` without leading and trailing ASCII whitespace.
pub open spec fn trim_ascii_spaces(s: Seq<char>) -> Seq<char> {
    trim_ascii_end(trim_ascii_start(s))
}

/// `s` without leading and trailing ASCII whitespace.
pub fn trim_ascii_whitespace(s: &str) -> (r: String)
    ensures
        r@ == trim_ascii_spaces(s@),
{
    let v = chars_of(s);
    let mut lo: usize = 0;
    assert(v@.subrange(0, v.len() as int) =~= v@);
    while lo < v.len() && (v[lo] == ' ' || v[lo] == '\t' || v[lo] == '\n' || v[lo] == '\u{c}' || v[lo] == '\r')
        invariant
            lo <= v.len(),
            trim_ascii_start(v@.subrange(lo as int, v.len() as int)) == trim_ascii_start(v@),
        decreases v.len() - lo,
    {
        assert(v@.subrange(lo as int, v.len() as int).drop_first() =~= v@.subrange(lo + 1, v.len() as int));
        lo = lo + 1;
    }
    let mut hi: usize = v.len();
    assert(trim_ascii_start(v@) == v@.subrange(lo as int, v.len() as int));
    while hi > lo && (v[hi - 1] == ' ' || v[hi - 1] == '\t' || v[hi - 1] == '\n' || v[hi - 1] == '\u{c}'
        || v[hi - 1] == '\r')
        invariant
            lo <= hi <= v.len(),
            trim_ascii_end(v@.subrange(lo as int, hi as int)) == trim_ascii_spaces(v@),
        decreases hi,
    {
        assert(v@.subrange(lo as int, hi as int).drop_last() =~= v@.subrange(lo as int, hi - 1));
        hi = hi - 1;
    }
    string_from_chars(&v, lo, hi)
}

/// `a` and `b` hold the same labels.
pub fn same_labels(a: &Vec<String>, b: &Vec<String>) -> (r: bool)
    ensures
        r == (labels_view(a@) == labels_view(b@)),
{
    if a.len() != b.len() {
        assert(labels_view(a@).len() != labels_view(b@).len());
        return false;
    }
    let r = ends_with_labels(a, b);
    proof {
        if r {
            assert(labels_view(a@).subrange(0, a.len() as int) =~= labels_view(a@));
        } else {
            assert(labels_view(a@).subrange(0, a.len() as int) =~= labels_view(a@));
        }
    }
    r
}

/// `a` and `b` hold the same characters.
pub fn same_text(a: &str, b: &str) -> (r: bool)
    ensures
        r == (a@ == b@),
{
    let x = chars_of(a);
    let y = chars_of(b);
    if x.len() != y.len() {
        return false;
    }
    let mut i: usize = 0;
    while i < x.len()
        invariant
            i <= x.len() == y.len(),
            x@ == a@,
            y@ == b@,
            forall|t: int| 0 <= t < i ==> x@[t] == y@[t],
        decreases x.len() - i,
    {
        if x[i] != y[i] {
            return false;
        }
        i = i + 1;
    }
    assert(x@ =~= y@);
    true
}


/// `s` without its leading run of `c`.
pub open spec fn trim_start_char(s: Seq<char>, c: char) -> Seq<char>
    decreases s.len(),
{
    if s.len() > 0 && s[0] == c {
        trim_start_char(s.drop_first(), c)
    } else {
        s
    }
}

/// `s` without its trailing run of `c`.
pub open spec fn trim_end_char(s: Seq<char>, c: char) -> Seq<char>
    decreases s.len(),
{
    if s.len() > 0 && s.last() == c {
        trim_end_char(s.drop_last(), c)
    } else {
        s
    }
}

/// `s` without leading and trailing runs of `c`, as `str::trim_matches(c)`
/// returns it.
pub open spec fn trim_char(s: Seq<char>, c: char) -> Seq<char> {
    trim_end_char(trim_start_char(s, c), c)
}

/// `s` with leading and trailing runs of `c` removed.
pub fn trim_matches_char(s: &str, c: char) -> (r: String)
    ensures
        r@ == trim_char(s@, c),
{
    let v = chars_of(s);
    let mut lo: usize = 0;
    assert(v@.subrange(0, v.len() as int) =~= v@);
    while lo < v.len() && v[lo] == c
        invariant
            lo <= v.len(),
            trim_start_char(v@.subrange(lo as int, v.len() as int), c) == trim_start_char(v@, c),
            v@ == s@,
        decreases v.len() - lo,
    {
        assert(v@.subrange(lo as int, v.len() as int).drop_first() =~= v@.subrange(lo + 1, v.len() as int));
        lo = lo + 1;
    }
    let mut hi: usize = v.len();
    assert(trim_start_char(v@, c) == v@.subrange(lo as int, v.len() as int));
    while hi > lo && v[hi - 1] == c
        invariant
            lo <= hi <= v.len(),
            trim_end_char(v@.subrange(lo as int, hi as int), c) == trim_char(v@, c),
            v@ == s@,
        decreases hi,
    {
        assert(v@.subrange(lo as int, hi as int).drop_last() =~= v@.subrange(lo as int, hi - 1));
        hi = hi - 1;
    }
    string_from_chars(&v, lo, hi)
}

/// The position of the first `c` in `s`, if any.
pub open spec fn first_index_of(s: Seq<char>, c: char) -> Option<int> {
    if exists|i: int| 0 <= i < s.len() && s[i] == c {
        Some(choose|i: int| 0 <= i < s.len() && s[i] == c && forall|j: int| 0 <= j < i ==> s[j] != c)
    } else {
        None
    }
}

/// The position of the first `c` in `v`, if any.
pub fn find_char(v: &Vec<char>, c: char) -> (r: Option<usize>)
    ensures
        match r {
            Some(i) => first_index_of(v@, c) == Some(i as int) && i < v.len() && v@[i as int] == c
                && forall|j: int| 0 <= j < i ==> v@[j] != c,
            None => first_index_of(v@, c) is None,
        },
{
    let mut i: usize = 0;
    while i < v.len()
        invariant
            i <= v.len(),
            forall|t: int| 0 <= t < i ==> v@[t] != c,
        decreases v.len() - i,
    {
        if v[i] == c {
            let ghost w = choose|k: int| 0 <= k < v@.len() && v@[k] == c && forall|j: int| 0 <= j < k ==> v@[j] != c;
            assert(0 <= i < v@.len() && v@[i as int] == c && forall|j: int| 0 <= j < i ==> v@[j] != c);
            proof {
                if w != i {
                    if w < i {
                        assert(v@[w] != c);
                    } else {
                        assert(v@[i as int] != c);
                    }
                }
            }
            return Some(i);
        }
        i = i + 1;
    }
    None
}

/// A decimal digit.
pub open spec fn is_digit(c: char) -> bool {
    '0' <= c && c <= '9'
}

/// The number written by the decimal digits `d`.
pub open spec fn digits_value(d: Seq<char>) -> nat
    decreases d.len(),
{
    if d.len() == 0 {
        0
    } else {
        digits_value(d.drop_last()) * 10 + ((d.last() as u32) - ('0' as u32)) as nat
    }
}

/// `s` without one leading `'+'` when more follows it.
pub open spec fn unsigned_digits(s: Seq<char>) -> Seq<char> {
    if s.len() > 1 && s[0] == '+' {
        s.drop_first()
    } else {
        s
    }
}

/// What `u16::from_str` gives for `s`: an optional leading `'+'`, then at
/// least one decimal digit and nothing else, with a value below 65536.
pub open spec fn u16_outcome(s: Seq<char>) -> Option<u16> {
    let d = unsigned_digits(s);
    if d.len() == 0 || exists|i: int| 0 <= i < d.len() && !is_digit(#[trigger] d[i]) {
        None
    } else if digits_value(d) > 65535 {
        None
    } else {
        Some(digits_value(d) as u16)
    }
}

proof fn lemma_digits_value_prefix(d: Seq<char>, k: int)
    requires
        0 <= k <= d.len(),
        forall|i: int| 0 <= i < d.len() ==> is_digit(#[trigger] d[i]),
    ensures
        digits_value(d.take(k)) <= digits_value(d),
    decreases d.len(),
{
    if k < d.len() {
        assert(d.drop_last().take(k) == d.take(k));
        lemma_digits_value_prefix(d.drop_last(), k);
    } else {
        assert(d.take(k) == d);
    }
}

/// Parses `s` as `u16::from_str` does.
pub fn parse_u16(s: &str) -> (r: Option<u16>)
    ensures
        r == u16_outcome(s@),
{
    let v = chars_of(s);
    let start: usize = if v.len() > 1 && v[0] == '+' { 1 } else { 0 };
    let ghost d = unsigned_digits(s@);
    assert(d == v@.subrange(start as int, v.len() as int));
    if start == v.len() {
        return None;
    }
    let mut j: usize = start;
    while j < v.len()
        invariant
            start <= j <= v.len(),
            v@ == s@,
            d == unsigned_digits(s@),
            d == v@.subrange(start as int, v.len() as int),
            forall|t: int| start <= t < j ==> is_digit(v@[t]),
        decreases v.len() - j,
    {
        if !('0' <= v[j] && v[j] <= '9') {
            assert(!is_digit(d[j - start]));
            return None;
        }
        j = j + 1;
    }
    assert forall|t: int| 0 <= t < d.len() implies is_digit(#[trigger] d[t]) by {
        assert(d[t] == v@[start + t]);
    }
    let mut value: u32 = 0;
    let mut i: usize = start;
    assert(d.take(0) =~= Seq::<char>::empty());
    while i < v.len()
        invariant
            start <= i <= v.len(),
            v@ == s@,
            d == unsigned_digits(s@),
            d == v@.subrange(start as int, v.len() as int),
            forall|t: int| 0 <= t < d.len() ==> is_digit(#[trigger] d[t]),
            value == digits_value(d.take(i - start)),
            value <= 65535,
        decreases v.len() - i,
    {
        assert(is_digit(d[i - start]));
        assert(d[i - start] == v@[i as int]);
        let digit = (v[i] as u32) - ('0' as u32);
        assert(d.take(i + 1 - start).drop_last() == d.take(i - start));
        assert(d.take(i + 1 - start).last() == v@[i as int]);
        let next = value * 10 + digit;
        if next > 65535 {
            proof {
                lemma_digits_value_prefix(d, i + 1 - start);
            }
            return None;
        }
        value = next;
        i = i + 1;
    }
    assert(d.take(i - start) == d);
    Some(value as u16)
}

/// Appends the characters of `t` to `s`.
pub fn push_str(s: &mut String, t: &str)
    ensures
        final(s)@ == old(s)@ + t@,
{
    let v = chars_of(t);
    let ghost start = s@;
    let mut i: usize = 0;
    while i < v.len()
        invariant
            i <= v.len(),
            v@ == t@,
            s@ == start + v@.take(i as int),
        decreases v.len() - i,
    {
        push_char(s, v[i]);
        assert(v@.take(i + 1) == v@.take(i as int).push(v@[i as int]));
        i = i + 1;
    }
    assert(v@.take(v.len() as int) == v@);
}

/// The decimal digits of `n`, without leading zeros (`"0"` for zero).
pub open spec fn decimal(n: nat) -> Seq<char>
    decreases n,
{
    if n < 10 {
        seq![(('0' as u32) + n) as char]
    } else {
        decimal(n / 10).push((('0' as u32) + (n % 10)) as char)
    }
}

/// Appends the decimal form of `n` to `s`.
pub fn push_decimal(s: &mut String, n: usize)
    ensures
        final(s)@ == old(s)@ + decimal(n as nat),
    decreases n,
{
    if n >= 10 {
        push_decimal(s, n / 10);
    }
    let d = (n % 10) as u32;
    let c = char_of_digit(d);
    push_char(s, c);
    assert(old(s)@ + decimal(n as nat) == (old(s)@ + decimal((n / 10) as nat)).push(c) || n < 10);
}

/// The character of the decimal digit `d`.
fn char_of_digit(d: u32) -> (c: char)
    requires
        d < 10,
    ensures
        c == (('0' as u32) + d) as char,
{
    if d == 0 { '0' } else if d == 1 { '1' } else if d == 2 { '2' } else if d == 3 { '3' }
    else if d == 4 { '4' } else if d == 5 { '5' } else if d == 6 { '6' } else if d == 7 { '7' }
    else if d == 8 { '8' } else { '9' }
}

/// At least one character, all decimal digits.
pub open spec fn all_digits(d: Seq<char>) -> bool {
    d.len() > 0 && forall|i: int| 0 <= i < d.len() ==> is_digit(#[trigger] d[i])
}

/// The value of the decimal digits `v[lo..]` when they are all digits and
/// the value is at most `cap`; `None` otherwise.
pub fn scan_decimal(v: &Vec<char>, lo: usize, cap: u64) -> (r: Option<u64>)
    requires
        lo <= v.len(),
        cap < 0x1000_0000_0000_0000,
    ensures
        match r {
            Some(x) => all_digits(v@.subrange(lo as int, v.len() as int)) && x == digits_value(
                v@.subrange(lo as int, v.len() as int),
            ) && x <= cap,
            None => !all_digits(v@.subrange(lo as int, v.len() as int)) || digits_value(
                v@.subrange(lo as int, v.len() as int),
            ) > cap,
        },
{
    let ghost d = v@.subrange(lo as int, v.len() as int);
    if lo == v.len() {
        return None;
    }
    let mut value: u64 = 0;
    let mut i: usize = lo;
    assert(d.take(0) =~= Seq::<char>::empty());
    while i < v.len()
        invariant
            lo <= i <= v.len(),
            d == v@.subrange(lo as int, v.len() as int),
            forall|t: int| 0 <= t < i - lo ==> is_digit(#[trigger] d[t]),
            value == digits_value(d.take(i - lo)),
            value <= cap,
            cap < 0x1000_0000_0000_0000,
        decreases v.len() - i,
    {
        assert(d[i - lo] == v@[i as int]);
        if !('0' <= v[i] && v[i] <= '9') {
            assert(!is_digit(d[i - lo]));
            return None;
        }
        assert(d.take(i + 1 - lo).drop_last() == d.take(i - lo));
        assert(d.take(i + 1 - lo).last() == v@[i as int]);
        let digit = (v[i] as u32) - ('0' as u32);
        let next = value * 10 + digit as u64;
        if next > cap {
            proof {
                lemma_digits_value_monotone(d, i + 1 - lo);
            }
            return None;
        }
        value = next;
        i = i + 1;
    }
    assert(d.take(i - lo) == d);
    Some(value)
}

/// The decimal value of a prefix never exceeds that of the whole.
proof fn lemma_digits_value_monotone(d: Seq<char>, k: int)
    requires
        0 <= k <= d.len(),
    ensures
        digits_value(d.take(k)) <= digits_value(d) || !all_digits(d),
    decreases d.len(),
{
    if k < d.len() {
        assert(d.drop_last().take(k) == d.take(k));
        lemma_digits_value_monotone(d.drop_last(), k);
        if all_digits(d) {
            assert(all_digits(d.drop_last()) || d.drop_last().len() == 0);
            if d.drop_last().len() == 0 {
                assert(d.take(k) =~= Seq::<char>::empty());
            } else {
                assert forall|i: int| 0 <= i < d.drop_last().len() implies is_digit(#[trigger] d.drop_last()[i]) by {
                    assert(d.drop_last()[i] == d[i]);
                }
            }
            assert(is_digit(d[d.len() - 1]));
        }
    } else {
        assert(d.take(k) == d);
    }
}

/// What `u32::from_str` gives for `s`.
pub open spec fn u32_outcome(s: Seq<char>) -> Option<u32> {
    let d = unsigned_digits(s);
    if !all_digits(d) || digits_value(d) > u32::MAX {
        None
    } else {
        Some(digits_value(d) as u32)
    }
}

/// Whether a signed number is negative, and its digits: one leading `'-'`
/// or `'+'` is a sign when more follows it.
pub open spec fn signed_digits(s: Seq<char>) -> (bool, Seq<char>) {
    if s.len() > 1 && s[0] == '-' {
        (true, s.drop_first())
    } else if s.len() > 1 && s[0] == '+' {
        (false, s.drop_first())
    } else {
        (false, s)
    }
}

/// What `i32::from_str` gives for `s`.
pub open spec fn i32_outcome(s: Seq<char>) -> Option<i32> {
    let (neg, d) = signed_digits(s);
    if !all_digits(d) {
        None
    } else {
        let v: int = if neg {
            -digits_value(d)
        } else {
            digits_value(d) as int
        };
        if v < i32::MIN || v > i32::MAX {
            None
        } else {
            Some(v as i32)
        }
    }
}

/// Parses `s` as `u32::from_str` does.
pub fn parse_u32(s: &str) -> (r: Option<u32>)
    ensures
        r == u32_outcome(s@),
{
    let v = chars_of(s);
    let start: usize = if v.len() > 1 && v[0] == '+' { 1 } else { 0 };
    assert(unsigned_digits(s@) == v@.subrange(start as int, v.len() as int));
    match scan_decimal(&v, start, 0xffff_ffff) {
        Some(x) => Some(x as u32),
        None => None,
    }
}

/// Parses `s` as `i32::from_str` does.
pub fn parse_i32(s: &str) -> (r: Option<i32>)
    ensures
        r == i32_outcome(s@),
{
    let v = chars_of(s);
    let neg = v.len() > 1 && v[0] == '-';
    let start: usize = if v.len() > 1 && (v[0] == '-' || v[0] == '+') { 1 } else { 0 };
    assert(signed_digits(s@).1 == v@.subrange(start as int, v.len() as int));
    assert(signed_digits(s@).0 == neg);
    if neg {
        match scan_decimal(&v, start, 0x8000_0000) {
            Some(x) => {
                let m = x as i64;
                Some((0 - m) as i32)
            },
            None => None,
        }
    } else {
        match scan_decimal(&v, start, 0x7fff_ffff) {
            Some(x) => Some(x as i32),
            None => None,
        }
    }
}
} // verus!
