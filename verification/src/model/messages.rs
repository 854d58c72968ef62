//! Kinds of control messages exchanged between neighbouring routers.

use vstd::prelude::*;
use crate::model::control_plane::MessageDescriptor;

verus! {

/// The kind of a control message, as it appears on the wire.
#[derive(Debug, Clone, Copy, PartialEq, Eq, Structural)]
pub enum MessageKind {
    Hello,
    OspfLsa,
    DdrLsa,
    RipUpdate,
}

impl MessageKind {
    /// The descriptor that is stamped on a freshly built message of this kind:
    /// liveness for hellos, flooded topology for link-state advertisements and
    /// one-hop distance vectors for RIP updates.
    pub open spec fn spec_descriptor(self, max_age_s: Option<u32>) -> MessageDescriptor {
        match self {
            MessageKind::Hello => MessageDescriptor::spec_hello(),
            MessageKind::OspfLsa | MessageKind::DdrLsa => MessageDescriptor::spec_topology_lsa(
                max_age_s,
            ),
            MessageKind::RipUpdate => MessageDescriptor::spec_rip_update(max_age_s),
        }
    }

    /// Builds the descriptor for a message of this kind.
    pub fn descriptor(self, max_age_s: Option<u32>) -> (d: MessageDescriptor)
        ensures
            d == self.spec_descriptor(max_age_s),
    {
        match self {
            MessageKind::Hello => MessageDescriptor::hello(),
            MessageKind::OspfLsa | MessageKind::DdrLsa => MessageDescriptor::topology_lsa(
                max_age_s,
            ),
            MessageKind::RipUpdate => MessageDescriptor::rip_update(max_age_s),
        }
    }

    /// The wire name of the kind.
    pub fn as_str(self) -> (r: &'static str)
        ensures
            r@ == match self {
                MessageKind::Hello => "hello"@,
                MessageKind::OspfLsa => "ospf_lsa"@,
                MessageKind::DdrLsa => "ddr_lsa"@,
                MessageKind::RipUpdate => "rip_update"@,
            },
    {
        match self {
            MessageKind::Hello => "hello",
            MessageKind::OspfLsa => "ospf_lsa",
            MessageKind::DdrLsa => "ddr_lsa",
            MessageKind::RipUpdate => "rip_update",
        }
    }
}

/// What a hello carries: the sender and, optionally, its fast state. Each
/// figure but the queue level is the bit pattern of a double-precision number.
#[derive(Debug, Clone, PartialEq)]
pub struct HelloPayload {
    pub router_id: u32,
    pub queue_level: Option<u64>,
    pub interface_utilization: Option<u64>,
    pub delay_ms: Option<u64>,
    pub loss_rate: Option<u64>,
}

/// What a link-state advertisement carries: the originator, its sequence
/// number, and the cost of its link to each neighbour.
#[derive(Debug, Clone, PartialEq)]
pub struct LsaPayload {
    pub origin_router_id: u32,
    pub lsa_seq: i64,
    pub links: Vec<(u32, u64)>,
}

/// What a RIP update carries: a metric for each destination.
#[derive(Debug, Clone, PartialEq)]
pub struct RipUpdatePayload {
    pub entries: Vec<(u32, u64)>,
}

/// The payload of a control message, by schema.
#[derive(Debug, Clone, PartialEq)]
pub enum Payload {
    Hello(HelloPayload),
    Lsa(LsaPayload),
    RipUpdate(RipUpdatePayload),
    /// A payload of no recognized schema.
    Opaque,
}

/// A control message. The time stamp is the bit pattern of a
/// double-precision number of seconds.
#[derive(Debug, Clone, PartialEq)]
pub struct ControlMessage {
    pub protocol: String,
    pub kind: MessageKind,
    pub src_router_id: u32,
    pub seq: u64,
    pub descriptor: MessageDescriptor,
    pub payload: Payload,
    pub ts: u64,
}

impl ControlMessage {
    /// A message made of its parts.
    pub fn new(
        protocol: &str,
        kind: MessageKind,
        src_router_id: u32,
        seq: u64,
        descriptor: MessageDescriptor,
        payload: Payload,
        ts: u64,
    ) -> (m: Self)
        ensures
            m.protocol@ == protocol@,
            m.kind == kind,
            m.src_router_id == src_router_id,
            m.seq == seq,
            m.descriptor == descriptor,
            m.payload == payload,
            m.ts == ts,
    {
        Self { protocol: protocol.to_owned(), kind, src_router_id, seq, descriptor, payload, ts }
    }
}

impl LsaPayload {
    /// A copy of the payload.
    pub fn duplicate(&self) -> (p: Self)
        ensures
            p.origin_router_id == self.origin_router_id,
            p.lsa_seq == self.lsa_seq,
            p.links@ == self.links@,
    {
        let mut links: Vec<(u32, u64)> = Vec::new();
        let mut i: usize = 0;
        while i < self.links.len()
            invariant
                i <= self.links@.len(),
                links@ == self.links@.take(i as int),
            decreases self.links.len() - i,
        {
            links.push(self.links[i]);
            assert(self.links@.take(i + 1) =~= self.links@.take(i as int).push(
                self.links@[i as int],
            ));
            i += 1;
        }
        assert(self.links@.take(self.links@.len() as int) =~= self.links@);
        Self { origin_router_id: self.origin_router_id, lsa_seq: self.lsa_seq, links }
    }
}

} // verus!
