//! The request handler of the first server generation: it owns the shared
//! server state; its decisions are those of `crate::mydns::dns::resolution`
//! with `Generation::First`.
use vstd::prelude::*;
use std::sync::Arc;

verus! {

/// The DNS request handler, holding the shared server state `S`.
pub struct DnsHandler<S> {
    pub state: Arc<S>,
}

impl<S> DnsHandler<S> {
    /// A handler over `state`.
    pub fn new(state: Arc<S>) -> (h: Self)
        ensures
            h.state == state,
    {
        DnsHandler { state }
    }
}

} // verus!
