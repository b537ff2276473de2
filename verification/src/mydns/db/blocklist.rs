//! Blocklist rows and payloads, and the canonical form a domain takes before
//! it is stored.
use vstd::prelude::*;
use crate::names::{
    chars_of, normalize, normalize_name, split_dots, split_labels, labels_view, strip_trailing_dots,
    trim_ascii_spaces, trim_ascii_whitespace, trim_spaces, trim_trailing_dots, trim_whitespace,
};

verus! {

broadcast use vstd::string::group_string_axioms;

/// A domain blocklist entry as stored in SQLite.
#[derive(Debug)]
pub struct BlocklistEntry {
    pub id: i64,
    pub domain: String,
    pub enabled: bool,
    /// Provenance tag: `"manual"` | `"imported"` | `"remote"`.
    pub source: String,
    pub reason: Option<String>,
    pub created_at: String,
    pub updated_at: String,
}

/// Payload for creating a new blocklist entry.
#[derive(Debug)]
pub struct CreateBlocklistEntry {
    pub domain: String,
    pub enabled: bool,
    pub source: String,
    pub reason: Option<String>,
}

/// Payload for updating an existing blocklist entry.
#[derive(Debug)]
pub struct UpdateBlocklistEntry {
    pub enabled: Option<bool>,
    pub reason: Option<String>,
}

/// The value `enabled` takes when a create payload omits it.
pub fn default_true() -> (b: bool)
    ensures
        b,
{
    true
}

/// The value `source` takes when a create payload omits it.
pub fn default_source() -> (s: String)
    ensures
        s@ == seq!['m', 'a', 'n', 'u', 'a', 'l'],
{
    let s = String::from_str("manual");
    proof {
        reveal_strlit("manual");
    }
    s
}

/// Why a domain was refused for the blocklist.
#[derive(Debug, Clone, Copy, PartialEq, Eq, Structural)]
pub enum DomainError {
    /// The input is exactly `"."`.
    RootZone,
    /// Nothing is left once trailing dots are removed.
    Empty,
    /// The name holds `'/'`, `':'` or `'@'`.
    NotPlainName,
    /// A label is empty or longer than 63 bytes.
    BadLabelLength,
    /// A label starts or ends with `'-'`.
    HyphenAtEdge,
    /// A label holds a byte other than an ASCII letter, digit or `'-'`.
    InvalidCharacter,
}

/// The text of a refusal, as shown to API clients.
pub open spec fn domain_error_text(e: DomainError) -> Seq<char> {
    match e {
        DomainError::RootZone => "The root zone '.' cannot be blocked"@,
        DomainError::Empty => "Domain name must not be empty"@,
        DomainError::NotPlainName => "Domain must be a plain DNS name (e.g. ads.example.com)"@,
        DomainError::BadLabelLength => "Domain contains an empty or oversized label"@,
        DomainError::HyphenAtEdge => "DNS labels must not start or end with '-'"@,
        DomainError::InvalidCharacter => "DNS labels may only contain letters, digits, and hyphens"@,
    }
}

impl DomainError {
    /// The message shown to API clients for this error.
    pub fn message(&self) -> (s: &'static str)
        ensures
            s@ == domain_error_text(*self),
    {
        match self {
            DomainError::RootZone => "The root zone '.' cannot be blocked",
            DomainError::Empty => "Domain name must not be empty",
            DomainError::NotPlainName => "Domain must be a plain DNS name (e.g. ads.example.com)",
            DomainError::BadLabelLength => "Domain contains an empty or oversized label",
            DomainError::HyphenAtEdge => "DNS labels must not start or end with '-'",
            DomainError::InvalidCharacter => "DNS labels may only contain letters, digits, and hyphens",
        }
    }
}

/// The number of bytes `c` takes in UTF-8.
pub open spec fn utf8_width(c: char) -> nat {
    if (c as u32) < 0x80 {
        1
    } else if (c as u32) < 0x800 {
        2
    } else if (c as u32) < 0x10000 {
        3
    } else {
        4
    }
}

/// The number of bytes `s` takes in UTF-8.
pub open spec fn utf8_len(s: Seq<char>) -> nat
    decreases s.len(),
{
    if s.len() == 0 {
        0
    } else {
        utf8_len(s.drop_last()) + utf8_width(s.last())
    }
}

/// An ASCII letter, an ASCII digit or `'-'`.
pub open spec fn is_label_char(c: char) -> bool {
    ||| ('a' <= c && c <= 'z')
    ||| ('A' <= c && c <= 'Z')
    ||| ('0' <= c && c <= '9')
    ||| c == '-'
}

/// What is wrong with one label, checked in the order length, hyphens, characters.
pub open spec fn label_error(l: Seq<char>) -> Option<DomainError> {
    if l.len() == 0 || utf8_len(l) > 63 {
        Some(DomainError::BadLabelLength)
    } else if l[0] == '-' || l.last() == '-' {
        Some(DomainError::HyphenAtEdge)
    } else if exists|i: int| 0 <= i < l.len() && !is_label_char(#[trigger] l[i]) {
        Some(DomainError::InvalidCharacter)
    } else {
        None
    }
}

/// The error of the first faulty label of `ls`, if any.
pub open spec fn first_label_error(ls: Seq<Seq<char>>) -> Option<DomainError>
    decreases ls.len(),
{
    if ls.len() == 0 {
        None
    } else {
        match label_error(ls[0]) {
            Some(e) => Some(e),
            None => first_label_error(ls.drop_first()),
        }
    }
}

/// The labels that are validated for a normalised name `n`: those of `n`
/// once surrounding ASCII whitespace and then trailing dots are removed.
/// Other whitespace stays in the labels, where it is an invalid character.
pub open spec fn checked_labels(n: Seq<char>) -> Seq<Seq<char>> {
    split_dots(strip_trailing_dots(trim_ascii_spaces(n)))
}

/// The outcome of normalising `raw` for the blocklist: the lowercased name
/// without trailing dots, or the first rule it breaks.
pub open spec fn domain_outcome(raw: Seq<char>) -> Result<Seq<char>, DomainError> {
    if raw == seq!['.'] {
        Err(DomainError::RootZone)
    } else {
        let n = normalize(raw);
        if n.len() == 0 {
            Err(DomainError::Empty)
        } else if n.contains('/') || n.contains(':') || n.contains('@') {
            Err(DomainError::NotPlainName)
        } else {
            match first_label_error(checked_labels(n)) {
                Some(e) => Err(e),
                None => Ok(n),
            }
        }
    }
}

/// `v` holds `c`.
fn holds_char(v: &Vec<char>, c: char) -> (b: bool)
    ensures
        b == v@.contains(c),
{
    let mut i: usize = 0;
    while i < v.len()
        invariant
            i <= v.len(),
            forall|t: int| 0 <= t < i ==> v@[t] != c,
        decreases v.len() - i,
    {
        if v[i] == c {
            assert(v@[i as int] == c);
            return true;
        }
        i = i + 1;
    }
    false
}

/// The UTF-8 width of `c`.
fn char_width(c: char) -> (w: usize)
    ensures
        w == utf8_width(c),
{
    if '\u{80}' > c {
        1
    } else if '\u{800}' > c {
        2
    } else if '\u{10000}' > c {
        3
    } else {
        4
    }
}

/// The rule, if any, that the label `l` breaks.
pub fn check_label(l: &str) -> (r: Option<DomainError>)
    ensures
        r == label_error(l@),
{
    let cs = chars_of(l);
    let n = cs.len();
    if n == 0 {
        return Some(DomainError::BadLabelLength);
    }
    let mut bytes: usize = 0;
    let mut i: usize = 0;
    while i < n
        invariant
            i <= n == cs.len(),
            cs@ == l@,
            bytes == utf8_len(cs@.take(i as int)),
            bytes <= 63,
        decreases n - i,
    {
        assert(cs@.take(i + 1).drop_last() == cs@.take(i as int));
        let w = char_width(cs[i]);
        if bytes + w > 63 {
            proof {
                lemma_utf8_len_prefix_monotone(cs@, i + 1);
            }
            return Some(DomainError::BadLabelLength);
        }
        bytes = bytes + w;
        i = i + 1;
    }
    assert(cs@.take(n as int) == cs@);
    if cs[0] == '-' || cs[n - 1] == '-' {
        return Some(DomainError::HyphenAtEdge);
    }
    let mut j: usize = 0;
    while j < n
        invariant
            j <= n == cs.len(),
            n > 0,
            cs@ == l@,
            utf8_len(cs@) <= 63,
            cs@[0] != '-',
            cs@.last() != '-',
            forall|t: int| 0 <= t < j ==> is_label_char(cs@[t]),
        decreases n - j,
    {
        let c = cs[j];
        let ok = ('a' <= c && c <= 'z') || ('A' <= c && c <= 'Z') || ('0' <= c && c <= '9') || c == '-';
        if !ok {
            assert(!is_label_char(cs@[j as int]));
            return Some(DomainError::InvalidCharacter);
        }
        j = j + 1;
    }
    None
}

/// The UTF-8 length of a prefix never exceeds that of the whole.
proof fn lemma_utf8_len_prefix_monotone(s: Seq<char>, k: int)
    requires
        0 <= k <= s.len(),
    ensures
        utf8_len(s.take(k)) <= utf8_len(s),
    decreases s.len(),
{
    if k < s.len() {
        assert(s.drop_last().take(k) == s.take(k));
        lemma_utf8_len_prefix_monotone(s.drop_last(), k);
    } else {
        assert(s.take(k) == s);
    }
}

/// Normalises and validates a domain name for blocklist storage: trailing
/// dots are removed and the name is lowercased; the root zone `"."`, an empty
/// result, URL characters and malformed labels are refused.
pub fn normalize_domain(raw: &str) -> (r: Result<String, DomainError>)
    ensures
        match r {
            Ok(s) => domain_outcome(raw@) == Ok::<Seq<char>, DomainError>(s@),
            Err(e) => domain_outcome(raw@) == Err::<Seq<char>, DomainError>(e),
        },
{
    let raw_chars = chars_of(raw);
    if raw_chars.len() == 1 && raw_chars[0] == '.' {
        assert(raw@ =~= seq!['.']);
        return Err(DomainError::RootZone);
    }
    assert(raw@ != seq!['.']);
    let normalized = normalize_name(raw);
    let n_chars = chars_of(normalized.as_str());
    if n_chars.len() == 0 {
        return Err(DomainError::Empty);
    }
    if holds_char(&n_chars, '/') || holds_char(&n_chars, ':') || holds_char(&n_chars, '@') {
        return Err(DomainError::NotPlainName);
    }
    let trimmed = trim_ascii_whitespace(normalized.as_str());
    let bare = trim_trailing_dots(trimmed.as_str());
    let labels = split_labels(bare.as_str());
    let ghost ls = labels_view(labels@);
    assert(ls.skip(0) =~= ls);
    assert(domain_outcome(raw@) == match first_label_error(ls) {
        Some(e) => Err::<Seq<char>, DomainError>(e),
        None => Ok(normalized@),
    });
    let mut i: usize = 0;
    while i < labels.len()
        invariant
            i <= labels.len(),
            domain_outcome(raw@) == match first_label_error(ls) {
                Some(e) => Err::<Seq<char>, DomainError>(e),
                None => Ok(normalized@),
            },
            ls == labels_view(labels@),
            ls == checked_labels(normalized@),
            first_label_error(ls) == first_label_error(ls.skip(i as int)),
        decreases labels.len() - i,
    {
        let e = check_label(labels[i].as_str());
        assert(ls.skip(i as int)[0] == labels@[i as int]@);
        assert(ls.skip(i as int).drop_first() == ls.skip(i + 1));
        if e.is_some() {
            assert(first_label_error(ls.skip(i as int)) == e);
            return Err(e.unwrap());
        }
        i = i + 1;
    }
    assert(ls.skip(labels.len() as int).len() == 0);
    Ok(normalized)
}

/// Why a create payload was refused.
#[derive(Debug, Clone, Copy, PartialEq, Eq, Structural)]
pub enum EntryError {
    /// The domain breaks a naming rule.
    Domain(DomainError),
    /// The source is not one of `manual`, `imported`, `remote`.
    InvalidSource,
}

/// A known provenance tag.
pub open spec fn is_known_source(s: Seq<char>) -> bool {
    ||| s == seq!['m', 'a', 'n', 'u', 'a', 'l']
    ||| s == seq!['i', 'm', 'p', 'o', 'r', 't', 'e', 'd']
    ||| s == seq!['r', 'e', 'm', 'o', 't', 'e']
}

/// `s` spells `lit` exactly.
fn spells(s: &Vec<char>, lit: &str) -> (b: bool)
    ensures
        b == (s@ == lit@),
{
    let l = chars_of(lit);
    if s.len() != l.len() {
        return false;
    }
    let mut i: usize = 0;
    while i < s.len()
        invariant
            i <= s.len() == l.len(),
            l@ == lit@,
            forall|t: int| 0 <= t < i ==> s@[t] == l@[t],
        decreases s.len() - i,
    {
        if s[i] != l[i] {
            return false;
        }
        i = i + 1;
    }
    assert(s@ =~= l@);
    true
}

/// The canonical domain and the trimmed source that a create payload is
/// stored with, or why it is refused: the domain is checked first.
pub fn prepare_entry(req: &CreateBlocklistEntry) -> (r: Result<(String, String), EntryError>)
    ensures
        match domain_outcome(req.domain@) {
            Err(e) => r == Err::<(String, String), EntryError>(EntryError::Domain(e)),
            Ok(d) => match r {
                Ok(pair) => pair.0@ == d && pair.1@ == trim_spaces(req.source@) && is_known_source(
                    trim_spaces(req.source@),
                ),
                Err(e) => e == EntryError::InvalidSource && !is_known_source(trim_spaces(req.source@)),
            },
        },
{
    let canonical = match normalize_domain(req.domain.as_str()) {
        Ok(d) => d,
        Err(e) => {
            return Err(EntryError::Domain(e));
        },
    };
    let source = trim_whitespace(req.source.as_str());
    let sc = chars_of(source.as_str());
    proof {
        reveal_strlit("manual");
        reveal_strlit("imported");
        reveal_strlit("remote");
    }
    let m = spells(&sc, "manual");
    let im = spells(&sc, "imported");
    let re = spells(&sc, "remote");
    assert("manual"@ =~= seq!['m', 'a', 'n', 'u', 'a', 'l']);
    assert("imported"@ =~= seq!['i', 'm', 'p', 'o', 'r', 't', 'e', 'd']);
    assert("remote"@ =~= seq!['r', 'e', 'm', 'o', 't', 'e']);
    if m || im || re {
        Ok((canonical, source))
    } else {
        Err(EntryError::InvalidSource)
    }
}

/// A normalised domain that normalisation leaves as it is (lowercase, no
/// trailing dot) is accepted again and comes back unchanged.
pub proof fn lemma_normalized_domain_is_stable(raw: Seq<char>, s: Seq<char>)
    requires
        domain_outcome(raw) == Ok::<Seq<char>, DomainError>(s),
        normalize(s) == s,
    ensures
        domain_outcome(s) == Ok::<Seq<char>, DomainError>(s),
{
    if s == seq!['.'] {
        assert(strip_trailing_dots(seq!['.'].drop_last()) == Seq::<char>::empty());
        assert(trim_ascii_spaces(s) == s) by {
            assert(s.drop_first().len() == 0);
        }
        assert(checked_labels(s)[0].len() == 0);
    }
}

} // verus!
