//! Descriptors that classify control-plane state and how it is exchanged.

use vstd::prelude::*;
use crate::text::{chars_are, keyword, keyword_of};

verus! {

/// What kind of state a message carries.
#[derive(Debug, Clone, Copy, PartialEq, Eq, Structural)]
pub enum StateClass {
    Liveness,
    Topology,
    DistanceVector,
    NeighborFastState,
    Opaque,
}

/// How far a message travels.
#[derive(Debug, Clone, Copy, PartialEq, Eq, Structural)]
pub enum ExchangeScope {
    OneHop,
    FloodDomain,
    RouterDomain,
}

impl ExchangeScope {
    /// The scope named by `raw`, matched on its trimmed, lower-cased form.
    pub open spec fn spec_from_str(raw: Seq<char>) -> Option<ExchangeScope> {
        let k = keyword(raw);
        if k == "one_hop"@ || k == "one-hop"@ || k == "neighbor"@ || k == "neighbor_only"@ {
            Some(ExchangeScope::OneHop)
        } else if k == "flood_domain"@ || k == "flood-domain"@ || k == "flood"@ || k == "area"@ {
            Some(ExchangeScope::FloodDomain)
        } else if k == "router_domain"@ || k == "router-domain"@ || k == "global"@ || k
            == "domain"@ {
            Some(ExchangeScope::RouterDomain)
        } else {
            None
        }
    }

    /// Parses a scope name; surrounding whitespace and ASCII case are ignored.
    pub fn from_str(raw: &str) -> (r: Option<ExchangeScope>)
        ensures
            r == Self::spec_from_str(raw@),
    {
        let k = keyword_of(raw);
        if chars_are(&k, "one_hop") || chars_are(&k, "one-hop") || chars_are(&k, "neighbor")
            || chars_are(&k, "neighbor_only") {
            Some(ExchangeScope::OneHop)
        } else if chars_are(&k, "flood_domain") || chars_are(&k, "flood-domain") || chars_are(
            &k,
            "flood",
        ) || chars_are(&k, "area") {
            Some(ExchangeScope::FloodDomain)
        } else if chars_are(&k, "router_domain") || chars_are(&k, "router-domain") || chars_are(
            &k,
            "global",
        ) || chars_are(&k, "domain") {
            Some(ExchangeScope::RouterDomain)
        } else {
            None
        }
    }

    /// The canonical name of the scope.
    pub fn as_str(self) -> (r: &'static str)
        ensures
            r@ == match self {
                ExchangeScope::OneHop => "one_hop"@,
                ExchangeScope::FloodDomain => "flood_domain"@,
                ExchangeScope::RouterDomain => "router_domain"@,
            },
    {
        match self {
            ExchangeScope::OneHop => "one_hop",
            ExchangeScope::FloodDomain => "flood_domain",
            ExchangeScope::RouterDomain => "router_domain",
        }
    }
}

/// When a message is sent.
#[derive(Debug, Clone, Copy, PartialEq, Eq, Structural)]
pub enum ExchangeMode {
    Periodic,
    Triggered,
    Hybrid,
}

/// The schema version that a descriptor carries when none is given.
pub fn default_schema_version() -> (v: u16)
    ensures
        v == 1,
{
    1
}

/// Metadata stamped on a control message.
#[derive(Debug, Clone, Copy, PartialEq, Eq, Structural)]
pub struct MessageDescriptor {
    pub schema_version: u16,
    pub state_class: Option<StateClass>,
    pub scope: Option<ExchangeScope>,
    pub mode: Option<ExchangeMode>,
    pub max_age_s: Option<u32>,
}

impl MessageDescriptor {
    /// The descriptor of a message that names none: version 1, nothing else set.
    pub open spec fn spec_default() -> MessageDescriptor {
        MessageDescriptor {
            schema_version: 1,
            state_class: None,
            scope: None,
            mode: None,
            max_age_s: None,
        }
    }

    pub open spec fn spec_hello() -> MessageDescriptor {
        MessageDescriptor {
            schema_version: 1,
            state_class: Some(StateClass::Liveness),
            scope: Some(ExchangeScope::OneHop),
            mode: Some(ExchangeMode::Periodic),
            max_age_s: None,
        }
    }

    pub open spec fn spec_topology_lsa(max_age_s: Option<u32>) -> MessageDescriptor {
        MessageDescriptor {
            schema_version: 1,
            state_class: Some(StateClass::Topology),
            scope: Some(ExchangeScope::FloodDomain),
            mode: Some(ExchangeMode::Hybrid),
            max_age_s,
        }
    }

    pub open spec fn spec_rip_update(max_age_s: Option<u32>) -> MessageDescriptor {
        MessageDescriptor {
            schema_version: 1,
            state_class: Some(StateClass::DistanceVector),
            scope: Some(ExchangeScope::OneHop),
            mode: Some(ExchangeMode::Hybrid),
            max_age_s,
        }
    }

    /// Descriptor of a hello: liveness, one hop, periodic.
    pub fn hello() -> (d: MessageDescriptor)
        ensures
            d == Self::spec_hello(),
    {
        MessageDescriptor {
            schema_version: default_schema_version(),
            state_class: Some(StateClass::Liveness),
            scope: Some(ExchangeScope::OneHop),
            mode: Some(ExchangeMode::Periodic),
            max_age_s: None,
        }
    }

    /// Descriptor of a link-state advertisement: topology, flooded, hybrid.
    pub fn topology_lsa(max_age_s: Option<u32>) -> (d: MessageDescriptor)
        ensures
            d == Self::spec_topology_lsa(max_age_s),
    {
        MessageDescriptor {
            schema_version: default_schema_version(),
            state_class: Some(StateClass::Topology),
            scope: Some(ExchangeScope::FloodDomain),
            mode: Some(ExchangeMode::Hybrid),
            max_age_s,
        }
    }

    /// Descriptor of a RIP update: distance vector, one hop, hybrid.
    pub fn rip_update(max_age_s: Option<u32>) -> (d: MessageDescriptor)
        ensures
            d == Self::spec_rip_update(max_age_s),
    {
        MessageDescriptor {
            schema_version: default_schema_version(),
            state_class: Some(StateClass::DistanceVector),
            scope: Some(ExchangeScope::OneHop),
            mode: Some(ExchangeMode::Hybrid),
            max_age_s,
        }
    }

    /// The same descriptor with its scope replaced when `scope` names one.
    pub fn with_scope(self, scope: Option<ExchangeScope>) -> (d: MessageDescriptor)
        ensures
            d == (MessageDescriptor {
                scope: if scope is Some { scope } else { self.scope },
                ..self
            }),
    {
        match scope {
            Some(s) => MessageDescriptor { scope: Some(s), ..self },
            None => self,
        }
    }
}

impl Default for MessageDescriptor {
    fn default() -> (d: MessageDescriptor)
        ensures
            d == MessageDescriptor::spec_default(),
    {
        MessageDescriptor {
            schema_version: default_schema_version(),
            state_class: None,
            scope: None,
            mode: None,
            max_age_s: None,
        }
    }
}

/// How old a record is with respect to its freshness windows.
#[derive(Debug, Clone, Copy, PartialEq, Eq, Structural)]
pub enum RecordFreshness {
    Fresh,
    Stale,
    Expired,
}

} // verus!
