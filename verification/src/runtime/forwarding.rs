//! The interface to whatever installs the forwarding table into the host.

use vstd::prelude::*;
use crate::model::routing::ForwardingEntry;

verus! {

/// Installs forwarding entries; the outcome lies with the host.
pub trait ForwardingApplier: Send {
    fn apply(&mut self, entries: &[ForwardingEntry]) -> Result<(), String>;
}

/// The applier that installs nothing and always succeeds.
#[derive(Debug, Default)]
pub struct NullForwardingApplier;

impl ForwardingApplier for NullForwardingApplier {
    fn apply(&mut self, entries: &[ForwardingEntry]) -> (r: Result<(), String>)
        ensures
            r is Ok,
    {
        Ok(())
    }
}

} // verus!
