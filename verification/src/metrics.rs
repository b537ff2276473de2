//! The bookkeeping behind the dashboard's counters: per-label counts, the
//! classification of response codes, and the sliding window of timed
//! samples (the last 24 hours, at most `MAX_SAMPLES` of them). The sample
//! values themselves (latencies) are opaque here.
use vstd::prelude::*;
use std::collections::VecDeque;
use crate::names::same_text;

verus! {

broadcast use vstd::string::group_string_axioms;

/// The most samples a window keeps.
pub const MAX_SAMPLES: usize = 20_000;

/// How long a sample is kept, in milliseconds (24 hours).
pub const HISTORY_MS: u64 = 86_400_000;

/// The span `requests_per_minute` counts, in milliseconds.
pub const MINUTE_MS: u64 = 60_000;

/// Counts per label (query types, response outcomes).
pub struct CounterMap {
    entries: Vec<(String, u64)>,
}

/// The count of `key` among `entries` (0 when absent).
pub open spec fn count_of(entries: Seq<(Seq<char>, u64)>, key: Seq<char>) -> nat
    decreases entries.len(),
{
    if entries.len() == 0 {
        0
    } else if entries.last().0 == key {
        entries.last().1 as nat
    } else {
        count_of(entries.drop_last(), key)
    }
}

pub open spec fn counters_view(v: Seq<(String, u64)>) -> Seq<(Seq<char>, u64)> {
    v.map_values(|e: (String, u64)| (e.0@, e.1))
}

/// No label is counted twice.
pub open spec fn distinct_labels(s: Seq<(Seq<char>, u64)>) -> bool {
    forall|i: int, j: int| 0 <= i < j < s.len() ==> #[trigger] s[i].0 != #[trigger] s[j].0
}

proof fn lemma_count_at(s: Seq<(Seq<char>, u64)>, i: int)
    requires
        distinct_labels(s),
        0 <= i < s.len(),
    ensures
        count_of(s, s[i].0) == s[i].1,
    decreases s.len(),
{
    if i < s.len() - 1 {
        assert(s.last().0 != s[i].0) by {
            assert(s[s.len() - 1] == s.last());
        }
        let p = s.drop_last();
        assert(distinct_labels(p)) by {
            assert forall|a: int, b: int| 0 <= a < b < p.len() implies #[trigger] p[a].0 != #[trigger] p[b].0 by {
                assert(p[a] == s[a] && p[b] == s[b]);
            }
        }
        assert(p[i] == s[i]);
        lemma_count_at(p, i);
    }
}

proof fn lemma_count_absent(s: Seq<(Seq<char>, u64)>, key: Seq<char>)
    requires
        forall|i: int| 0 <= i < s.len() ==> (#[trigger] s[i]).0 != key,
    ensures
        count_of(s, key) == 0,
    decreases s.len(),
{
    if s.len() > 0 {
        assert(s[s.len() - 1] == s.last());
        let p = s.drop_last();
        assert forall|i: int| 0 <= i < p.len() implies (#[trigger] p[i]).0 != key by {
            assert(p[i] == s[i]);
        }
        lemma_count_absent(p, key);
    }
}

impl View for CounterMap {
    type V = Seq<(Seq<char>, u64)>;

    closed spec fn view(&self) -> Seq<(Seq<char>, u64)> {
        counters_view(self.entries@)
    }
}

impl CounterMap {
    /// No label is counted twice.
    pub open spec fn wf(&self) -> bool {
        distinct_labels(self@)
    }

    /// The count of `key`.
    pub open spec fn count(&self, key: Seq<char>) -> nat {
        count_of(self@, key)
    }

    /// No counts.
    pub fn new() -> (m: CounterMap)
        ensures
            m.wf(),
            m@ == Seq::<(Seq<char>, u64)>::empty(),
            forall|k: Seq<char>| m.count(k) == 0,
    {
        let m = CounterMap { entries: Vec::new() };
        assert(m@ =~= Seq::<(Seq<char>, u64)>::empty());
        m
    }

    fn position(&self, key: &str) -> (r: Option<usize>)
        ensures
            match r {
                Some(i) => i < self@.len() && self@[i as int].0 == key@,
                None => forall|i: int| 0 <= i < self@.len() ==> (#[trigger] self@[i]).0 != key@,
            },
    {
        let mut i: usize = 0;
        while i < self.entries.len()
            invariant
                i <= self.entries.len(),
                forall|k: int| 0 <= k < i ==> (#[trigger] self@[k]).0 != key@,
            decreases self.entries.len() - i,
        {
            assert(self@[i as int] == (self.entries@[i as int].0@, self.entries@[i as int].1));
            if same_text(self.entries[i].0.as_str(), key) {
                return Some(i);
            }
            i = i + 1;
        }
        None
    }

    /// The count of `key`.
    pub fn get(&self, key: &str) -> (n: u64)
        requires
            self.wf(),
        ensures
            n == self.count(key@),
    {
        match self.position(key) {
            Some(i) => {
                proof {
                    lemma_count_at(self@, i as int);
                }
                assert(self@[i as int] == (self.entries@[i as int].0@, self.entries@[i as int].1));
                self.entries[i].1
            },
            None => {
                proof {
                    lemma_count_absent(self@, key@);
                }
                0
            },
        }
    }

    /// Counts one more of `key`; every other count is unchanged.
    pub fn increment(&mut self, key: &str)
        requires
            old(self).wf(),
            old(self).count(key@) < u64::MAX,
        ensures
            final(self).wf(),
            final(self).count(key@) == old(self).count(key@) + 1,
            forall|k: Seq<char>| k != key@ ==> final(self).count(k) == old(self).count(k),
    {
        let ghost before = self@;
        match self.position(key) {
            Some(i) => {
                proof {
                    lemma_count_at(before, i as int);
                }
                let n = self.entries[i].1;
                assert(before[i as int] == (self.entries@[i as int].0@, n));
                let label = self.entries[i].0.clone();
                self.entries.set(i, (label, n + 1));
                assert(self@ =~= before.update(i as int, (key@, (n + 1) as u64)));
                assert(distinct_labels(self@)) by {
                    assert forall|a: int, b: int| 0 <= a < b < self@.len() implies #[trigger] self@[a].0
                        != #[trigger] self@[b].0 by {
                        assert(self@[a].0 == before[a].0 && self@[b].0 == before[b].0);
                    }
                }
                proof {
                    lemma_count_at(self@, i as int);
                    assert forall|k: Seq<char>| k != key@ implies count_of(self@, k) == count_of(before, k) by {
                        lemma_count_other_update(before, i as int, (n + 1) as u64, k);
                    }
                }
            },
            None => {
                self.entries.push((key.to_owned(), 1));
                assert(self@ =~= before.push((key@, 1u64)));
                assert(distinct_labels(self@)) by {
                    assert forall|a: int, b: int| 0 <= a < b < self@.len() implies #[trigger] self@[a].0
                        != #[trigger] self@[b].0 by {
                        if b == before.len() {
                            assert(before[a].0 != key@);
                        }
                    }
                }
                proof {
                    lemma_count_absent(before, key@);
                    assert forall|k: Seq<char>| k != key@ implies count_of(self@, k) == count_of(before, k) by {
                        assert(self@.drop_last() == before);
                    }
                }
            },
        }
    }

    /// The labels and their counts, in the order labels were first seen.
    pub fn entries(&self) -> (r: &Vec<(String, u64)>)
        ensures
            counters_view(r@) == self@,
    {
        &self.entries
    }
}

proof fn lemma_count_other_update(s: Seq<(Seq<char>, u64)>, i: int, n: u64, k: Seq<char>)
    requires
        0 <= i < s.len(),
        k != s[i].0,
    ensures
        count_of(s.update(i, (s[i].0, n)), k) == count_of(s, k),
    decreases s.len(),
{
    let u = s.update(i, (s[i].0, n));
    if i < s.len() - 1 {
        assert(u.drop_last() == s.drop_last().update(i, (s[i].0, n)));
        assert(s.drop_last()[i] == s[i]);
        lemma_count_other_update(s.drop_last(), i, n, k);
        assert(u.last() == s.last());
    } else {
        assert(u.drop_last() == s.drop_last());
    }
}

/// A response's outcome, as the metrics classify it.
#[derive(Debug, Clone, Copy, PartialEq, Eq, Structural)]
pub enum OutcomeCode {
    NoError,
    NxDomain,
    ServFail,
    Refused,
    Other,
}

/// The label an outcome is counted under.
pub open spec fn outcome_text(o: OutcomeCode) -> Seq<char> {
    match o {
        OutcomeCode::NoError => "NOERROR"@,
        OutcomeCode::NxDomain => "NXDOMAIN"@,
        OutcomeCode::ServFail => "SERVFAIL"@,
        OutcomeCode::Refused => "REFUSED"@,
        OutcomeCode::Other => "OTHER"@,
    }
}

/// The label an outcome is counted under.
pub fn outcome_label(o: OutcomeCode) -> (s: &'static str)
    ensures
        s@ == outcome_text(o),
{
    match o {
        OutcomeCode::NoError => "NOERROR",
        OutcomeCode::NxDomain => "NXDOMAIN",
        OutcomeCode::ServFail => "SERVFAIL",
        OutcomeCode::Refused => "REFUSED",
        OutcomeCode::Other => "OTHER",
    }
}

/// An outcome label that counts as a DNS error.
pub open spec fn is_error_label(label: Seq<char>) -> bool {
    label == "SERVFAIL"@ || label == "REFUSED"@ || label == "OTHER"@
}

/// Whether an outcome label counts as a DNS error.
pub fn counts_as_error(label: &str) -> (b: bool)
    ensures
        b == is_error_label(label@),
{
    same_text(label, "SERVFAIL") || same_text(label, "REFUSED") || same_text(label, "OTHER")
}

/// The sample is older than the history kept, at time `now` (ms).
pub open spec fn too_old(at: u64, now: u64) -> bool {
    now > at && now - at > HISTORY_MS
}

/// The samples left once the oldest are dropped while there are more than
/// `MAX_SAMPLES` or the oldest is older than the history kept.
pub open spec fn trimmed<T>(s: Seq<(u64, T)>, now: u64) -> Seq<(u64, T)>
    decreases s.len(),
{
    if s.len() > MAX_SAMPLES || (s.len() > 0 && too_old(s[0].0, now)) {
        trimmed(s.drop_first(), now)
    } else {
        s
    }
}

/// The number of samples taken within the last minute before `now`.
pub open spec fn recent_count<T>(s: Seq<(u64, T)>, now: u64) -> nat
    decreases s.len(),
{
    if s.len() == 0 {
        0
    } else {
        recent_count(s.drop_last(), now) + if now <= s.last().0 || now - s.last().0 <= MINUTE_MS {
            1nat
        } else {
            0nat
        }
    }
}

/// Timed samples, oldest first.
pub struct SampleWindow<T> {
    samples: VecDeque<(u64, T)>,
}

impl<T> View for SampleWindow<T> {
    type V = Seq<(u64, T)>;

    closed spec fn view(&self) -> Seq<(u64, T)> {
        self.samples@
    }
}

impl<T> SampleWindow<T> {
    /// No samples.
    pub fn new() -> (w: SampleWindow<T>)
        ensures
            w@.len() == 0,
    {
        SampleWindow { samples: VecDeque::new() }
    }

    /// Drops the oldest samples while there are more than `MAX_SAMPLES` or
    /// the oldest is older than 24 hours at `now`.
    pub fn trim(&mut self, now: u64)
        ensures
            final(self)@ == trimmed(old(self)@, now),
    {
        loop
            invariant
                trimmed(self@, now) == trimmed(old(self)@, now),
            decreases self@.len(),
        {
            let len = self.samples.len();
            let drop = if len > MAX_SAMPLES {
                true
            } else if len > 0 {
                let at = self.samples[0].0;
                now > at && now - at > HISTORY_MS
            } else {
                false
            };
            if !drop {
                return;
            }
            let ghost before = self@;
            let _ = self.samples.pop_front();
            assert(self@ == before.drop_first());
        }
    }

    /// Records `value` taken at `now`, then trims the window.
    pub fn record(&mut self, now: u64, value: T)
        ensures
            final(self)@ == trimmed(old(self)@.push((now, value)), now),
    {
        self.samples.push_back((now, value));
        self.trim(now);
    }

    /// The number of samples taken within the last minute before `now`.
    pub fn count_recent(&self, now: u64) -> (n: usize)
        ensures
            n == recent_count(self@, now),
    {
        let mut n: usize = 0;
        let mut i: usize = 0;
        assert(self@.take(0) =~= Seq::<(u64, T)>::empty());
        while i < self.samples.len()
            invariant
                i <= self@.len(),
                n == recent_count(self@.take(i as int), now),
                n <= i,
            decreases self@.len() - i,
        {
            assert(self@.take(i + 1).drop_last() == self@.take(i as int));
            assert(self@.take(i + 1).last() == self@[i as int]);
            let at = self.samples[i].0;
            if now <= at || now - at <= MINUTE_MS {
                n = n + 1;
            }
            i = i + 1;
        }
        assert(self@.take(self@.len() as int) == self@);
        n
    }

    /// The samples, oldest first.
    pub fn samples(&self) -> (r: &VecDeque<(u64, T)>)
        ensures
            r@ == self@,
    {
        &self.samples
    }
}

/// A trimmed window never holds more than `MAX_SAMPLES` samples, and none it
/// holds first is older than the history kept.
pub proof fn lemma_trimmed_bounded<T>(s: Seq<(u64, T)>, now: u64)
    ensures
        trimmed(s, now).len() <= MAX_SAMPLES,
        trimmed(s, now).len() > 0 ==> !too_old(trimmed(s, now)[0].0, now),
    decreases s.len(),
{
    if s.len() > MAX_SAMPLES || (s.len() > 0 && too_old(s[0].0, now)) {
        lemma_trimmed_bounded(s.drop_first(), now);
    }
}


/// `n` plus one, wrapping at `u64::MAX` as an atomic counter does.
pub open spec fn next_count(n: u64) -> u64 {
    if n == u64::MAX {
        0
    } else {
        (n + 1) as u64
    }
}

/// The counts of `counts` with one more of `key`.
pub open spec fn bumped(counts: spec_fn(Seq<char>) -> nat, key: Seq<char>) -> spec_fn(Seq<char>) -> nat {
    |k: Seq<char>| if k == key { counts(k) + 1 } else { counts(k) }
}

/// The server's metrics as a mathematical value.
pub struct MetricsView<T> {
    pub queries: u64,
    pub upstream_requests: u64,
    pub upstream_successes: u64,
    pub upstream_failures: u64,
    pub cache_evictions: u64,
    pub errors: u64,
    /// Queries counted per record type.
    pub query_types: spec_fn(Seq<char>) -> nat,
    /// Responses counted per outcome label.
    pub outcomes: spec_fn(Seq<char>) -> nat,
    pub response_samples: Seq<(u64, T)>,
    pub upstream_samples: Seq<(u64, T)>,
}

/// The server's counters and timed samples (a sample's value, a latency, is
/// of type `T`).
pub struct Metrics<T> {
    queries: u64,
    upstream_requests: u64,
    upstream_successes: u64,
    upstream_failures: u64,
    cache_evictions: u64,
    errors: u64,
    query_types: CounterMap,
    outcomes: CounterMap,
    response_samples: SampleWindow<T>,
    upstream_samples: SampleWindow<T>,
}

impl<T> View for Metrics<T> {
    type V = MetricsView<T>;

    closed spec fn view(&self) -> MetricsView<T> {
        MetricsView {
            queries: self.queries,
            upstream_requests: self.upstream_requests,
            upstream_successes: self.upstream_successes,
            upstream_failures: self.upstream_failures,
            cache_evictions: self.cache_evictions,
            errors: self.errors,
            query_types: |k: Seq<char>| self.query_types.count(k),
            outcomes: |k: Seq<char>| self.outcomes.count(k),
            response_samples: self.response_samples@,
            upstream_samples: self.upstream_samples@,
        }
    }
}

impl<T> Metrics<T> {
    /// No label is counted twice in either count map.
    pub closed spec fn wf(&self) -> bool {
        self.query_types.wf() && self.outcomes.wf()
    }

    /// All counts zero, no samples.
    pub fn new() -> (m: Metrics<T>)
        ensures
            m.wf(),
            m@.queries == 0,
            m@.upstream_requests == 0,
            m@.upstream_successes == 0,
            m@.upstream_failures == 0,
            m@.cache_evictions == 0,
            m@.errors == 0,
            forall|k: Seq<char>| #[trigger] (m@.query_types)(k) == 0 && (m@.outcomes)(k) == 0,
            m@.response_samples.len() == 0,
            m@.upstream_samples.len() == 0,
    {
        Metrics {
            queries: 0,
            upstream_requests: 0,
            upstream_successes: 0,
            upstream_failures: 0,
            cache_evictions: 0,
            errors: 0,
            query_types: CounterMap::new(),
            outcomes: CounterMap::new(),
            response_samples: SampleWindow::new(),
            upstream_samples: SampleWindow::new(),
        }
    }

    /// Counts a query of type `query_type`.
    pub fn record_query(&mut self, query_type: &str)
        requires
            old(self).wf(),
            (old(self)@.query_types)(query_type@) < u64::MAX,
        ensures
            final(self).wf(),
            final(self)@ == (MetricsView {
                queries: next_count(old(self)@.queries),
                query_types: bumped(old(self)@.query_types, query_type@),
                ..old(self)@
            }),
    {
        self.queries = if self.queries == u64::MAX {
            0
        } else {
            self.queries + 1
        };
        self.query_types.increment(query_type);
        assert(self@.query_types =~= bumped(old(self)@.query_types, query_type@));
    }

    /// Counts a response with outcome label `outcome`; the error labels also
    /// count as DNS errors.
    pub fn record_outcome(&mut self, outcome: &str)
        requires
            old(self).wf(),
            (old(self)@.outcomes)(outcome@) < u64::MAX,
        ensures
            final(self).wf(),
            final(self)@ == (MetricsView {
                outcomes: bumped(old(self)@.outcomes, outcome@),
                errors: if is_error_label(outcome@) {
                    next_count(old(self)@.errors)
                } else {
                    old(self)@.errors
                },
                ..old(self)@
            }),
    {
        self.outcomes.increment(outcome);
        if counts_as_error(outcome) {
            self.errors = if self.errors == u64::MAX {
                0
            } else {
                self.errors + 1
            };
        }
        assert(self@.outcomes =~= bumped(old(self)@.outcomes, outcome@));
    }

    /// Counts a request sent upstream.
    pub fn record_upstream_start(&mut self)
        ensures
            final(self).wf() == old(self).wf(),
            final(self)@ == (MetricsView { upstream_requests: next_count(old(self)@.upstream_requests), ..old(self)@ }),
    {
        self.upstream_requests = if self.upstream_requests == u64::MAX {
            0
        } else {
            self.upstream_requests + 1
        };
    }

    /// Counts an upstream resolution as a success or a failure.
    pub fn record_upstream_result(&mut self, success: bool)
        ensures
            final(self).wf() == old(self).wf(),
            final(self)@ == (if success {
                MetricsView { upstream_successes: next_count(old(self)@.upstream_successes), ..old(self)@ }
            } else {
                MetricsView { upstream_failures: next_count(old(self)@.upstream_failures), ..old(self)@ }
            }),
    {
        if success {
            self.upstream_successes = if self.upstream_successes == u64::MAX {
                0
            } else {
                self.upstream_successes + 1
            };
        } else {
            self.upstream_failures = if self.upstream_failures == u64::MAX {
                0
            } else {
                self.upstream_failures + 1
            };
        }
    }

    /// Counts a cache eviction.
    pub fn record_eviction(&mut self)
        ensures
            final(self).wf() == old(self).wf(),
            final(self)@ == (MetricsView { cache_evictions: next_count(old(self)@.cache_evictions), ..old(self)@ }),
    {
        self.cache_evictions = if self.cache_evictions == u64::MAX {
            0
        } else {
            self.cache_evictions + 1
        };
    }

    /// Records a response time taken at `now` (ms), keeping the last day.
    pub fn record_latency(&mut self, now: u64, response: T)
        ensures
            final(self).wf() == old(self).wf(),
            final(self)@ == (MetricsView {
                response_samples: trimmed(old(self)@.response_samples.push((now, response)), now),
                ..old(self)@
            }),
    {
        self.response_samples.record(now, response);
    }

    /// Records an upstream latency taken at `now` (ms), keeping the last day.
    pub fn record_upstream_latency(&mut self, now: u64, latency: T)
        ensures
            final(self).wf() == old(self).wf(),
            final(self)@ == (MetricsView {
                upstream_samples: trimmed(old(self)@.upstream_samples.push((now, latency)), now),
                ..old(self)@
            }),
    {
        self.upstream_samples.record(now, latency);
    }

    /// Drops the samples that have aged out of both windows at `now` (ms).
    pub fn trim_samples(&mut self, now: u64)
        ensures
            final(self).wf() == old(self).wf(),
            final(self)@ == (MetricsView {
                response_samples: trimmed(old(self)@.response_samples, now),
                upstream_samples: trimmed(old(self)@.upstream_samples, now),
                ..old(self)@
            }),
    {
        self.response_samples.trim(now);
        self.upstream_samples.trim(now);
    }

    /// The number of queries counted.
    pub fn queries(&self) -> (n: u64)
        ensures
            n == self@.queries,
    {
        self.queries
    }

    /// The number of requests sent upstream.
    pub fn upstream_requests(&self) -> (n: u64)
        ensures
            n == self@.upstream_requests,
    {
        self.upstream_requests
    }

    /// The number of successful upstream resolutions.
    pub fn upstream_successes(&self) -> (n: u64)
        ensures
            n == self@.upstream_successes,
    {
        self.upstream_successes
    }

    /// The number of failed upstream resolutions.
    pub fn upstream_failures(&self) -> (n: u64)
        ensures
            n == self@.upstream_failures,
    {
        self.upstream_failures
    }

    /// The number of cache evictions.
    pub fn cache_evictions(&self) -> (n: u64)
        ensures
            n == self@.cache_evictions,
    {
        self.cache_evictions
    }

    /// The number of responses counted as DNS errors.
    pub fn errors(&self) -> (n: u64)
        ensures
            n == self@.errors,
    {
        self.errors
    }

    /// The queries counted per record type.
    pub fn query_types(&self) -> (r: &CounterMap)
        ensures
            self.wf() ==> r.wf(),
            forall|k: Seq<char>| #[trigger] r.count(k) == (self@.query_types)(k),
    {
        &self.query_types
    }

    /// The responses counted per outcome label.
    pub fn outcomes(&self) -> (r: &CounterMap)
        ensures
            self.wf() ==> r.wf(),
            forall|k: Seq<char>| #[trigger] r.count(k) == (self@.outcomes)(k),
    {
        &self.outcomes
    }

    /// The response-time samples.
    pub fn response_samples(&self) -> (r: &SampleWindow<T>)
        ensures
            r@ == self@.response_samples,
    {
        &self.response_samples
    }

    /// The upstream-latency samples.
    pub fn upstream_samples(&self) -> (r: &SampleWindow<T>)
        ensures
            r@ == self@.upstream_samples,
    {
        &self.upstream_samples
    }
}

} // verus!
