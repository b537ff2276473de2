//! The handler decorator that records request metrics around the DNS
//! handler; both share the same server state.
use vstd::prelude::*;
use std::sync::Arc;
use super::handler::DnsHandler;

verus! {

/// Calls `<Arc<S> as Clone>::clone`: another pointer to the same value.
#[verifier::external_body]
fn share<S>(a: &Arc<S>) -> (r: Arc<S>)
    ensures
        r == *a,
{
    Arc::clone(a)
}

/// A `DnsHandler` decorated with metrics recording.
pub struct MetricsHandler<S> {
    pub inner: DnsHandler<S>,
    pub state: Arc<S>,
}

impl<S> MetricsHandler<S> {
    /// A decorated handler over `state`: the inner handler shares the state.
    pub fn new(state: Arc<S>) -> (h: Self)
        ensures
            h.state == state,
            h.inner.state == state,
    {
        MetricsHandler { inner: DnsHandler::new(share(&state)), state }
    }
}

} // verus!
