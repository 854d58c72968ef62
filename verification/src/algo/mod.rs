//! Which of a protocol's routes go on to the forwarding table.

use vstd::prelude::*;
use crate::model::routing::Route;

verus! {

/// The context of a decision; `now` is the bit pattern of a
/// double-precision number of seconds.
#[derive(Debug, Clone)]
pub struct DecisionContext {
    pub router_id: u32,
    pub protocol: String,
    pub now: u64,
}

/// Chooses among the routes that a protocol offers.
pub trait DecisionEngine: Send + Sync {
    fn choose_routes(&self, ctx: &DecisionContext, protocol_routes: &[Route]) -> Vec<Route>;
}

/// The engine that lets every route through.
#[derive(Debug, Default)]
pub struct PassthroughDecisionEngine;

impl PassthroughDecisionEngine {
    /// Every route of `protocol_routes`, in order.
    pub fn pass(protocol_routes: &[Route]) -> (out: Vec<Route>)
        ensures
            out@ == protocol_routes@,
    {
        let mut out: Vec<Route> = Vec::new();
        let mut i: usize = 0;
        while i < protocol_routes.len()
            invariant
                i <= protocol_routes@.len(),
                out@ == protocol_routes@.take(i as int),
            decreases protocol_routes.len() - i,
        {
            out.push(protocol_routes[i].duplicate());
            assert(protocol_routes@.take(i + 1) =~= protocol_routes@.take(i as int).push(
                protocol_routes@[i as int],
            ));
            i += 1;
        }
        assert(protocol_routes@.take(protocol_routes@.len() as int) =~= protocol_routes@);
        out
    }
}

impl DecisionEngine for PassthroughDecisionEngine {
    fn choose_routes(&self, ctx: &DecisionContext, protocol_routes: &[Route]) -> (out: Vec<Route>)
        ensures
            out@ == protocol_routes@,
    {
        PassthroughDecisionEngine::pass(protocol_routes)
    }
}

} // verus!
