use mydns::dns::handler::DnsHandler;
use mydns::dns::metrics_handler::MetricsHandler;
use mydns::metrics::{counts_as_error, outcome_label, CounterMap, Metrics, OutcomeCode, SampleWindow, MAX_SAMPLES};
use std::sync::Arc;

#[test]
fn counters_count_per_label() {
    let mut m = CounterMap::new();
    m.increment("A");
    m.increment("AAAA");
    m.increment("A");
    assert_eq!(m.get("A"), 2);
    assert_eq!(m.get("AAAA"), 1);
    assert_eq!(m.get("MX"), 0);
    assert_eq!(m.entries().len(), 2);
}

#[test]
fn outcomes_and_errors() {
    assert_eq!(outcome_label(OutcomeCode::NoError), "NOERROR");
    assert_eq!(outcome_label(OutcomeCode::Refused), "REFUSED");
    assert!(counts_as_error("SERVFAIL"));
    assert!(counts_as_error("OTHER"));
    assert!(!counts_as_error("NXDOMAIN"));
}

#[test]
fn sample_window_keeps_a_day_and_a_bounded_count() {
    let mut w: SampleWindow<f64> = SampleWindow::new();
    w.record(0, 1.0);
    w.record(1_000, 2.0);
    w.record(86_400_000 + 500, 3.0);
    // The first sample is older than a day; the second is exactly within.
    assert_eq!(w.samples().len(), 2);
    assert_eq!(w.count_recent(86_400_000 + 500), 1);
    for i in 0..(MAX_SAMPLES as u64 + 5) {
        w.record(90_000_000 + i, 0.5);
    }
    assert_eq!(w.samples().len(), MAX_SAMPLES);
}

#[test]
fn handlers_share_state() {
    let state = Arc::new(7u32);
    let h = MetricsHandler::new(state.clone());
    assert!(Arc::ptr_eq(&h.state, &h.inner.state));
    let d = DnsHandler::new(state);
    assert_eq!(*d.state, 7);
}

#[test]
fn metrics_count_queries_outcomes_and_upstream_results() {
    let mut m: Metrics<f64> = Metrics::new();
    m.record_query("A");
    m.record_query("A");
    m.record_query("MX");
    m.record_outcome("NOERROR");
    m.record_outcome("SERVFAIL");
    m.record_outcome("REFUSED");
    m.record_upstream_start();
    m.record_upstream_start();
    m.record_upstream_result(true);
    m.record_upstream_result(false);
    m.record_eviction();
    assert_eq!(m.queries(), 3);
    assert_eq!(m.query_types().get("A"), 2);
    assert_eq!(m.query_types().get("MX"), 1);
    assert_eq!(m.outcomes().get("NOERROR"), 1);
    assert_eq!(m.errors(), 2);
    assert_eq!(m.upstream_requests(), 2);
    assert_eq!(m.upstream_successes(), 1);
    assert_eq!(m.upstream_failures(), 1);
    assert_eq!(m.cache_evictions(), 1);
}

#[test]
fn metrics_keep_latency_samples_in_their_windows() {
    let mut m: Metrics<f64> = Metrics::new();
    m.record_latency(0, 4.5);
    m.record_latency(100_000, 2.5);
    m.record_upstream_latency(100_000, 30.0);
    assert_eq!(m.response_samples().samples().len(), 2);
    assert_eq!(m.response_samples().count_recent(120_000), 1);
    assert_eq!(m.upstream_samples().samples().len(), 1);
    m.record_latency(86_400_000 + 1, 1.0);
    assert_eq!(m.response_samples().samples().len(), 2);
}
