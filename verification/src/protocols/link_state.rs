//! The part of the control plane that link-state engines share: sequence
//! numbers, the link-state database, origination and flooding.
//!
//! When a hello or an advertisement is due is a matter of elapsed time and
//! is decided by the caller; what is then originated, to whom it is sent and
//! how the database changes is decided here.

use vstd::prelude::*;
use crate::id_map::{ids_sorted, map_of, IdMap};
use crate::model::control_plane::{ExchangeScope, MessageDescriptor};
use crate::model::messages::{ControlMessage, HelloPayload, LsaPayload, MessageKind, Payload};
use crate::model::metric::{bits_eq, bits_is_usable_cost, is_usable_cost, num_eq};
use crate::model::state::{LinkStateDb, LinkStateRecord};
use crate::protocols::base::{ProtocolContext, RouterLink};
use crate::protocols::route_compute::types::Graph;

verus! {

/// What a tick of the control plane gave.
#[derive(Debug, Clone)]
pub struct LinkStateTick {
    pub hello_due: bool,
    pub lsa_payload: Option<LsaPayload>,
    pub topology_changed: bool,
}

/// The state that link-state engines share.
pub struct LinkStateControlPlane {
    msg_seq: u64,
    lsa_seq: i64,
    hello_scope: ExchangeScope,
    lsa_scope: ExchangeScope,
    last_local_links: IdMap<u64>,
    lsdb: LinkStateDb,
}

/// The links of `links` that are up, each with its cost.
pub open spec fn up_links(links: Seq<(u32, RouterLink)>, n: int) -> Seq<(u32, u64)>
    decreases n,
{
    if n <= 0 {
        Seq::empty()
    } else if links[n - 1].1.is_up {
        up_links(links, n - 1).push((links[n - 1].0, links[n - 1].1.cost))
    } else {
        up_links(links, n - 1)
    }
}

/// Whether two link maps are equal: the same neighbours, each at the same
/// cost as a number.
pub open spec fn links_eq(a: Seq<(u32, u64)>, b: Seq<(u32, u64)>) -> bool {
    a.len() == b.len() && forall|i: int|
        0 <= i < a.len() ==> (#[trigger] a[i]).0 == b[i].0 && num_eq(a[i].1, b[i].1)
}

/// The neighbours of `links` other than `exclude`, in ascending order.
pub open spec fn flood_targets(links: Seq<(u32, RouterLink)>, n: int, exclude: Option<u32>) -> Seq<
    u32,
>
    decreases n,
{
    if n <= 0 {
        Seq::empty()
    } else if exclude == Some(links[n - 1].0) {
        flood_targets(links, n - 1, exclude)
    } else {
        flood_targets(links, n - 1, exclude).push(links[n - 1].0)
    }
}

/// The links of the context that are up, each with its cost, in ascending
/// order of the neighbours.
pub fn local_links(ctx: &ProtocolContext) -> (links: IdMap<u64>)
    ensures
        links@ == up_links(ctx.links@, ctx.links@.len() as int),
{
    let mut links: IdMap<u64> = IdMap::new();
    let n = ctx.links.len();
    let mut i: usize = 0;
    while i < n
        invariant
            i <= n,
            n == ctx.links@.len(),
            ids_sorted(ctx.links@),
            links@ == up_links(ctx.links@, i as int),
            forall|j: int|
                0 <= j < links@.len() ==> exists|k: int|
                    0 <= k < i && (#[trigger] links@[j]).0 == (#[trigger] ctx.links@[k]).0,
        decreases n - i,
    {
        let id = ctx.links.key_at(i);
        let link = ctx.links.value_at(i);
        if link.is_up {
            let ghost before = links@;
            proof {
                assert forall|j: int| 0 <= j < before.len() implies (#[trigger] before[j]).0 < id by {
                    let k = choose|k: int|
                        0 <= k < i && before[j].0 == (#[trigger] ctx.links@[k]).0;
                    assert(ctx.links@[k].0 < ctx.links@[i as int].0);
                }
            }
            links.append_greatest(id, link.cost);
            proof {
                assert forall|j: int| 0 <= j < links@.len() implies exists|k: int|
                    0 <= k < i + 1 && (#[trigger] links@[j]).0 == (#[trigger] ctx.links@[k]).0 by {
                    if j < before.len() {
                        let k = choose|k: int|
                            0 <= k < i && before[j].0 == (#[trigger] ctx.links@[k]).0;
                        assert(links@[j] == before[j]);
                        assert(links@[j].0 == ctx.links@[k].0);
                    } else {
                        assert(links@[j].0 == ctx.links@[i as int].0);
                    }
                }
            }
        } else {
            proof {
                assert forall|j: int| 0 <= j < links@.len() implies exists|k: int|
                    0 <= k < i + 1 && (#[trigger] links@[j]).0 == (#[trigger] ctx.links@[k]).0 by {
                    let k = choose|k: int|
                        0 <= k < i && links@[j].0 == (#[trigger] ctx.links@[k]).0;
                    assert(links@[j].0 == ctx.links@[k].0);
                }
            }
        }
        i += 1;
    }
    links
}

/// Whether two link maps are equal, the costs compared as numbers.
pub fn link_maps_equal(a: &IdMap<u64>, b: &IdMap<u64>) -> (r: bool)
    ensures
        r == links_eq(a@, b@),
{
    let n = a.len();
    if n != b.len() {
        return false;
    }
    let mut i: usize = 0;
    while i < n
        invariant
            i <= n,
            n == a@.len(),
            n == b@.len(),
            forall|j: int|
                0 <= j < i ==> (#[trigger] a@[j]).0 == b@[j].0 && num_eq(a@[j].1, b@[j].1),
        decreases n - i,
    {
        if a.key_at(i) != b.key_at(i) || !bits_eq(*a.value_at(i), *b.value_at(i)) {
            return false;
        }
        i += 1;
    }
    true
}

impl LinkStateControlPlane {
    /// The number of the last message sent.
    pub closed spec fn spec_msg_seq(&self) -> u64 {
        self.msg_seq
    }

    /// The sequence number of the last advertisement originated.
    pub closed spec fn spec_lsa_seq(&self) -> i64 {
        self.lsa_seq
    }

    /// The scope stamped on hellos.
    pub closed spec fn spec_hello_scope(&self) -> ExchangeScope {
        self.hello_scope
    }

    /// The scope stamped on advertisements.
    pub closed spec fn spec_lsa_scope(&self) -> ExchangeScope {
        self.lsa_scope
    }

    /// The local links as last advertised.
    pub closed spec fn spec_last_local_links(&self) -> Seq<(u32, u64)> {
        self.last_local_links@
    }

    /// The link-state database.
    pub closed spec fn spec_lsdb(&self) -> LinkStateDb {
        self.lsdb
    }

    /// The descriptor stamped on a message of `kind`: that of the kind, with
    /// the scope of hellos or advertisements put in its place.
    pub open spec fn spec_descriptor(&self, kind: MessageKind) -> MessageDescriptor {
        match kind {
            MessageKind::Hello => MessageDescriptor {
                scope: Some(self.spec_hello_scope()),
                ..MessageDescriptor::spec_hello()
            },
            MessageKind::OspfLsa | MessageKind::DdrLsa => MessageDescriptor {
                scope: Some(self.spec_lsa_scope()),
                ..MessageDescriptor::spec_topology_lsa(None)
            },
            MessageKind::RipUpdate => MessageDescriptor::spec_rip_update(None),
        }
    }

    /// A control plane that has sent nothing and knows nothing.
    pub fn new() -> (cp: Self)
        ensures
            cp.spec_msg_seq() == 0,
            cp.spec_lsa_seq() == 0,
            cp.spec_hello_scope() == ExchangeScope::OneHop,
            cp.spec_lsa_scope() == ExchangeScope::FloodDomain,
            cp.spec_last_local_links().len() == 0,
            cp.spec_lsdb()@.len() == 0,
    {
        Self {
            msg_seq: 0,
            lsa_seq: 0,
            hello_scope: ExchangeScope::OneHop,
            lsa_scope: ExchangeScope::FloodDomain,
            last_local_links: IdMap::new(),
            lsdb: LinkStateDb::default(),
        }
    }

    /// Sets the scopes stamped on hellos and on advertisements.
    pub fn set_descriptor_scopes(&mut self, hello_scope: ExchangeScope, lsa_scope: ExchangeScope)
        ensures
            final(self).spec_hello_scope() == hello_scope,
            final(self).spec_lsa_scope() == lsa_scope,
            final(self).spec_msg_seq() == old(self).spec_msg_seq(),
            final(self).spec_lsa_seq() == old(self).spec_lsa_seq(),
            final(self).spec_last_local_links() == old(self).spec_last_local_links(),
            final(self).spec_lsdb() == old(self).spec_lsdb(),
    {
        self.hello_scope = hello_scope;
        self.lsa_scope = lsa_scope;
    }

    /// The number of the last message sent.
    pub fn msg_seq(&self) -> (n: u64)
        ensures
            n == self.spec_msg_seq(),
    {
        self.msg_seq
    }

    /// The sequence number of the last advertisement originated.
    pub fn lsa_seq(&self) -> (n: i64)
        ensures
            n == self.spec_lsa_seq(),
    {
        self.lsa_seq
    }

    /// Whether the local links `links` differ from those last advertised.
    pub fn local_links_changed(&self, links: &IdMap<u64>) -> (r: bool)
        ensures
            r == !links_eq(links@, self.spec_last_local_links()),
    {
        !link_maps_equal(links, &self.last_local_links)
    }

    /// Read access to the link-state database.
    pub fn lsdb(&self) -> (db: &LinkStateDb)
        ensures
            *db == self.spec_lsdb(),
    {
        &self.lsdb
    }

    /// One tick. `hello_due` and `originate` are the caller's verdict on the
    /// timers; `expired` lists the originators whose records have aged.
    /// Where `originate` holds, an advertisement of the links `links` is
    /// originated: it gets the next sequence number, is stored in the
    /// database as this router's own, and its payload is handed out. Then the
    /// aged records leave the database. The topology has changed if an
    /// advertisement was originated or a record left.
    pub fn tick(
        &mut self,
        router_id: u32,
        now: u64,
        links: IdMap<u64>,
        hello_due: bool,
        originate: bool,
        expired: &[u32],
    ) -> (t: LinkStateTick)
        requires
            old(self).spec_lsa_seq() < i64::MAX,
        ensures
            t.hello_due == hello_due,
            t.lsa_payload is Some == originate,
            final(self).spec_msg_seq() == old(self).spec_msg_seq(),
            final(self).spec_hello_scope() == old(self).spec_hello_scope(),
            final(self).spec_lsa_scope() == old(self).spec_lsa_scope(),
            final(self).spec_lsa_seq() == old(self).spec_lsa_seq() + (if originate {
                1int
            } else {
                0int
            }),
            final(self).spec_last_local_links() == (if originate {
                links@
            } else {
                old(self).spec_last_local_links()
            }),
            t.lsa_payload matches Some(p) ==> p.origin_router_id == router_id && p.lsa_seq
                == final(self).spec_lsa_seq() && p.links@ == links@,
            final(self).spec_lsdb().spec_map() == own_record_stored(
                old(self).spec_lsdb(),
                originate,
                router_id,
                (old(self).spec_lsa_seq() + 1) as i64,
                links,
                now,
            ).remove_keys(expired@.to_set()),
            t.topology_changed == (originate || final(self).spec_lsdb().spec_map().len()
                != own_record_stored(
                old(self).spec_lsdb(),
                originate,
                router_id,
                (old(self).spec_lsa_seq() + 1) as i64,
                links,
                now,
            ).len()),
    {
        let mut lsa_payload: Option<LsaPayload> = None;
        if originate {
            self.lsa_seq += 1;
            let mut listed: Vec<(u32, u64)> = Vec::new();
            let n = links.len();
            let mut i: usize = 0;
            while i < n
                invariant
                    i <= n,
                    n == links@.len(),
                    listed@ == links@.take(i as int),
                decreases n - i,
            {
                listed.push((links.key_at(i), *links.value_at(i)));
                assert(links@.take(i + 1) =~= links@.take(i as int).push(links@[i as int]));
                i += 1;
            }
            assert(links@.take(n as int) =~= links@);
            self.last_local_links = links.duplicate();
            self.lsdb.upsert(router_id, self.lsa_seq, links, now);
            lsa_payload = Some(
                LsaPayload { origin_router_id: router_id, lsa_seq: self.lsa_seq, links: listed },
            );
        }
        let ghost stored = self.lsdb@;
        let aged = self.lsdb.age_out(expired);
        proof {
            lemma_map_len(stored);
            lemma_map_len(self.lsdb@);
        }
        LinkStateTick { hello_due, lsa_payload, topology_changed: aged || originate }
    }

    /// Removes the records of the originators `expired`, which the caller
    /// found to be older than the maximum age, and tells whether a record
    /// was removed.
    pub fn age_out(&mut self, expired: &[u32]) -> (changed: bool)
        ensures
            final(self).spec_lsdb().spec_map() == old(self).spec_lsdb().spec_map().remove_keys(
                expired@.to_set(),
            ),
            changed == (final(self).spec_lsdb()@.len() != old(self).spec_lsdb()@.len()),
            final(self).spec_msg_seq() == old(self).spec_msg_seq(),
            final(self).spec_lsa_seq() == old(self).spec_lsa_seq(),
            final(self).spec_hello_scope() == old(self).spec_hello_scope(),
            final(self).spec_lsa_scope() == old(self).spec_lsa_scope(),
            final(self).spec_last_local_links() == old(self).spec_last_local_links(),
    {
        self.lsdb.age_out(expired)
    }

    /// Builds the next message: it gets the next message number and the
    /// descriptor of its kind.
    pub fn new_message(
        &mut self,
        protocol_name: &str,
        router_id: u32,
        kind: MessageKind,
        payload: Payload,
        now: u64,
    ) -> (m: ControlMessage)
        requires
            old(self).spec_msg_seq() < u64::MAX,
        ensures
            final(self).spec_msg_seq() == old(self).spec_msg_seq() + 1,
            final(self).spec_lsa_seq() == old(self).spec_lsa_seq(),
            final(self).spec_hello_scope() == old(self).spec_hello_scope(),
            final(self).spec_lsa_scope() == old(self).spec_lsa_scope(),
            final(self).spec_last_local_links() == old(self).spec_last_local_links(),
            final(self).spec_lsdb() == old(self).spec_lsdb(),
            m.protocol@ == protocol_name@,
            m.kind == kind,
            m.src_router_id == router_id,
            m.seq == final(self).spec_msg_seq(),
            m.descriptor == old(self).spec_descriptor(kind),
            m.payload == payload,
            m.ts == now,
    {
        self.msg_seq += 1;
        let descriptor = match kind {
            MessageKind::Hello => {
                let mut d = MessageDescriptor::hello();
                d.scope = Some(self.hello_scope);
                d
            },
            MessageKind::OspfLsa | MessageKind::DdrLsa => {
                let mut d = MessageDescriptor::topology_lsa(None);
                d.scope = Some(self.lsa_scope);
                d
            },
            MessageKind::RipUpdate => MessageDescriptor::rip_update(None),
        };
        ControlMessage::new(protocol_name, kind, router_id, self.msg_seq, descriptor, payload, now)
    }

    /// A hello for every neighbour of the context, in ascending order of
    /// the neighbours; the messages are numbered in that order, and each
    /// carries what `payload_for_neighbor` makes for its neighbour.
    pub fn send_hello<F: Fn(u32) -> HelloPayload>(
        &mut self,
        protocol_name: &str,
        ctx: &ProtocolContext,
        payload_for_neighbor: F,
    ) -> (out: Vec<(u32, ControlMessage)>)
        requires
            old(self).spec_msg_seq() + ctx.links@.len() <= u64::MAX,
            forall|neighbor_id: u32| call_requires(payload_for_neighbor, (neighbor_id,)),
        ensures
            out@.len() == ctx.links@.len(),
            final(self).spec_msg_seq() == old(self).spec_msg_seq() + out@.len(),
            final(self).spec_lsa_seq() == old(self).spec_lsa_seq(),
            final(self).spec_hello_scope() == old(self).spec_hello_scope(),
            final(self).spec_lsa_scope() == old(self).spec_lsa_scope(),
            final(self).spec_last_local_links() == old(self).spec_last_local_links(),
            final(self).spec_lsdb() == old(self).spec_lsdb(),
            forall|i: int|
                0 <= i < out@.len() ==> {
                    let (to, m) = #[trigger] out@[i];
                    &&& to == ctx.links@[i].0
                    &&& m.protocol@ == protocol_name@
                    &&& m.kind == MessageKind::Hello
                    &&& m.src_router_id == ctx.router_id
                    &&& m.seq == old(self).spec_msg_seq() + i + 1
                    &&& m.descriptor == old(self).spec_descriptor(MessageKind::Hello)
                    &&& m.ts == ctx.now
                    &&& m.payload matches Payload::Hello(p) && call_ensures(
                        payload_for_neighbor,
                        (to,),
                        p,
                    )
                },
    {
        let mut out: Vec<(u32, ControlMessage)> = Vec::new();
        let n = ctx.links.len();
        let mut i: usize = 0;
        while i < n
            invariant
                i <= n,
                n == ctx.links@.len(),
                old(self).spec_msg_seq() + n <= u64::MAX,
                forall|neighbor_id: u32| call_requires(payload_for_neighbor, (neighbor_id,)),
                out@.len() == i,
                self.spec_msg_seq() == old(self).spec_msg_seq() + i,
                self.spec_lsa_seq() == old(self).spec_lsa_seq(),
                self.spec_hello_scope() == old(self).spec_hello_scope(),
                self.spec_lsa_scope() == old(self).spec_lsa_scope(),
                self.spec_last_local_links() == old(self).spec_last_local_links(),
                self.spec_lsdb() == old(self).spec_lsdb(),
                forall|k: int|
                    0 <= k < out@.len() ==> {
                        let (to, m) = #[trigger] out@[k];
                        &&& to == ctx.links@[k].0
                        &&& m.protocol@ == protocol_name@
                        &&& m.kind == MessageKind::Hello
                        &&& m.src_router_id == ctx.router_id
                        &&& m.seq == old(self).spec_msg_seq() + k + 1
                        &&& m.descriptor == old(self).spec_descriptor(MessageKind::Hello)
                        &&& m.ts == ctx.now
                        &&& m.payload matches Payload::Hello(p) && call_ensures(
                            payload_for_neighbor,
                            (to,),
                            p,
                        )
                    },
            decreases n - i,
        {
            let neighbor_id = ctx.links.key_at(i);
            let payload = payload_for_neighbor(neighbor_id);
            let message = self.new_message(
                protocol_name,
                ctx.router_id,
                MessageKind::Hello,
                Payload::Hello(payload),
                ctx.now,
            );
            out.push((neighbor_id, message));
            i += 1;
        }
        out
    }

    /// The advertisement `payload` as a message for every neighbour of the
    /// context but `exclude`, in ascending order of the neighbours; the
    /// messages are numbered in that order.
    pub fn flood_lsa(
        &mut self,
        protocol_name: &str,
        kind: MessageKind,
        ctx: &ProtocolContext,
        payload: &LsaPayload,
        exclude: Option<u32>,
    ) -> (out: Vec<(u32, ControlMessage)>)
        requires
            old(self).spec_msg_seq() + ctx.links@.len() <= u64::MAX,
        ensures
            out@.len() == flood_targets(ctx.links@, ctx.links@.len() as int, exclude).len(),
            final(self).spec_msg_seq() == old(self).spec_msg_seq() + out@.len(),
            final(self).spec_lsa_seq() == old(self).spec_lsa_seq(),
            final(self).spec_lsdb() == old(self).spec_lsdb(),
            forall|i: int|
                0 <= i < out@.len() ==> {
                    let (to, m) = #[trigger] out@[i];
                    &&& to == flood_targets(ctx.links@, ctx.links@.len() as int, exclude)[i]
                    &&& exclude != Some(to)
                    &&& m.protocol@ == protocol_name@
                    &&& m.kind == kind
                    &&& m.src_router_id == ctx.router_id
                    &&& m.seq == old(self).spec_msg_seq() + i + 1
                    &&& m.descriptor == old(self).spec_descriptor(kind)
                    &&& m.ts == ctx.now
                    &&& m.payload matches Payload::Lsa(p) && p.origin_router_id
                        == payload.origin_router_id && p.lsa_seq == payload.lsa_seq && p.links@
                        == payload.links@
                },
    {
        let mut out: Vec<(u32, ControlMessage)> = Vec::new();
        let n = ctx.links.len();
        let mut i: usize = 0;
        while i < n
            invariant
                i <= n,
                n == ctx.links@.len(),
                old(self).spec_msg_seq() + n <= u64::MAX,
                out@.len() <= i,
                out@.len() == flood_targets(ctx.links@, i as int, exclude).len(),
                self.spec_msg_seq() == old(self).spec_msg_seq() + out@.len(),
                self.spec_lsa_seq() == old(self).spec_lsa_seq(),
                self.spec_lsdb() == old(self).spec_lsdb(),
                self.spec_hello_scope() == old(self).spec_hello_scope(),
                self.spec_lsa_scope() == old(self).spec_lsa_scope(),
                forall|k: int|
                    0 <= k < out@.len() ==> {
                        let (to, m) = #[trigger] out@[k];
                        &&& to == flood_targets(ctx.links@, i as int, exclude)[k]
                        &&& exclude != Some(to)
                        &&& m.protocol@ == protocol_name@
                        &&& m.kind == kind
                        &&& m.src_router_id == ctx.router_id
                        &&& m.seq == old(self).spec_msg_seq() + k + 1
                        &&& m.descriptor == old(self).spec_descriptor(kind)
                        &&& m.ts == ctx.now
                        &&& m.payload matches Payload::Lsa(p) && p.origin_router_id
                            == payload.origin_router_id && p.lsa_seq == payload.lsa_seq
                            && p.links@ == payload.links@
                    },
            decreases n - i,
        {
            let neighbor_id = ctx.links.key_at(i);
            let skip = match exclude {
                Some(x) => x == neighbor_id,
                None => false,
            };
            if !skip {
                let message = self.new_message(
                    protocol_name,
                    ctx.router_id,
                    kind,
                    Payload::Lsa(payload.duplicate()),
                    ctx.now,
                );
                out.push((neighbor_id, message));
            }
            i += 1;
        }
        out
    }

    /// Stores an advertisement that was received, if it is newer than what
    /// is held; tells whether it was stored.
    pub fn upsert_lsa(&mut self, origin: u32, lsa_seq: i64, links: IdMap<u64>, now: u64) -> (stored: bool)
        ensures
            stored == old(self).spec_lsdb().spec_accepts(origin, lsa_seq),
            stored ==> final(self).spec_lsdb().spec_map() == old(self).spec_lsdb().spec_map().insert(
                origin,
                LinkStateRecord { router_id: origin, seq: lsa_seq, links, learned_at: now },
            ),
            !stored ==> final(self).spec_lsdb()@ == old(self).spec_lsdb()@,
            final(self).spec_msg_seq() == old(self).spec_msg_seq(),
            final(self).spec_lsa_seq() == old(self).spec_lsa_seq(),
            final(self).spec_hello_scope() == old(self).spec_hello_scope(),
            final(self).spec_lsa_scope() == old(self).spec_lsa_scope(),
            final(self).spec_last_local_links() == old(self).spec_last_local_links(),
    {
        self.lsdb.upsert(origin, lsa_seq, links, now)
    }

    /// The links that an advertisement lists, by neighbour: of two pairs
    /// for one neighbour the later counts; where `validate_nonnegative`
    /// asks for it, pairs whose cost is not usable are left out.
    pub fn parse_links(raw_links: &[(u32, u64)], validate_nonnegative: bool) -> (links: IdMap<u64>)
        ensures
            links.spec_map() == listed_links(
                raw_links@,
                raw_links@.len() as int,
                validate_nonnegative,
            ),
    {
        let mut links: IdMap<u64> = IdMap::new();
        let mut i: usize = 0;
        while i < raw_links.len()
            invariant
                i <= raw_links@.len(),
                links.spec_map() == listed_links(raw_links@, i as int, validate_nonnegative),
            decreases raw_links.len() - i,
        {
            let (neighbor_id, cost) = raw_links[i];
            if !validate_nonnegative || bits_is_usable_cost(cost) {
                links.insert(neighbor_id, cost);
            }
            i += 1;
        }
        links
    }

    /// Takes in the advertisement `lsa` that was received at `now`: where it
    /// is newer than what is held of its originator, the links that it lists
    /// become the record of that originator. Tells whether it was stored.
    pub fn learn_lsa(&mut self, lsa: &LsaPayload, validate_nonnegative: bool, now: u64) -> (stored: bool)
        ensures
            stored == old(self).spec_lsdb().spec_accepts(lsa.origin_router_id, lsa.lsa_seq),
            stored ==> {
                let held = final(self).spec_lsdb().spec_map();
                &&& held.contains_key(lsa.origin_router_id)
                &&& held[lsa.origin_router_id].router_id == lsa.origin_router_id
                &&& held[lsa.origin_router_id].seq == lsa.lsa_seq
                &&& held[lsa.origin_router_id].learned_at == now
                &&& held[lsa.origin_router_id].links.spec_map() == listed_links(
                    lsa.links@,
                    lsa.links@.len() as int,
                    validate_nonnegative,
                )
                &&& held.remove(lsa.origin_router_id) == old(self).spec_lsdb().spec_map().remove(
                    lsa.origin_router_id,
                )
            },
            !stored ==> final(self).spec_lsdb()@ == old(self).spec_lsdb()@,
            final(self).spec_msg_seq() == old(self).spec_msg_seq(),
            final(self).spec_lsa_seq() == old(self).spec_lsa_seq(),
            final(self).spec_hello_scope() == old(self).spec_hello_scope(),
            final(self).spec_lsa_scope() == old(self).spec_lsa_scope(),
            final(self).spec_last_local_links() == old(self).spec_last_local_links(),
    {
        let links = Self::parse_links(lsa.links.as_slice(), validate_nonnegative);
        let ghost before = self.lsdb.spec_map();
        let stored = self.lsdb.upsert(lsa.origin_router_id, lsa.lsa_seq, links, now);
        proof {
            if stored {
                assert(self.lsdb.spec_map().remove(lsa.origin_router_id) =~= before.remove(
                    lsa.origin_router_id,
                ));
            }
        }
        stored
    }
}

/// The links that the first `n` of `pairs` list, by neighbour: a later
/// pair takes the place of an earlier one for the same neighbour; where
/// `validate_nonnegative` asks for it, pairs whose cost is not usable are
/// left out.
pub open spec fn listed_links(pairs: Seq<(u32, u64)>, n: int, validate_nonnegative: bool) -> Map<u32, u64>
    decreases n,
{
    if n <= 0 {
        Map::empty()
    } else {
        let held = listed_links(pairs, n - 1, validate_nonnegative);
        if validate_nonnegative && !is_usable_cost(pairs[n - 1].1) {
            held
        } else {
            held.insert(pairs[n - 1].0, pairs[n - 1].1)
        }
    }
}

/// The records of `db` once this router's own advertisement is taken in:
/// where one is originated and newer than what `db` holds of this router,
/// its record is in; otherwise the records are those of `db`.
pub open spec fn own_record_stored(
    db: LinkStateDb,
    originate: bool,
    router_id: u32,
    seq: i64,
    links: IdMap<u64>,
    now: u64,
) -> Map<u32, LinkStateRecord> {
    if originate && db.spec_accepts(router_id, seq) {
        db.spec_map().insert(router_id, LinkStateRecord { router_id, seq, links, learned_at: now })
    } else {
        db.spec_map()
    }
}

/// The length of a sorted sequence of entries is the size of its map.
pub proof fn lemma_map_len<V>(s: Seq<(u32, V)>)
    requires
        ids_sorted(s),
    ensures
        map_of(s).dom().finite(),
        map_of(s).len() == s.len(),
    decreases s.len(),
{
    if s.len() == 0 {
        assert(map_of(s) =~= Map::<u32, V>::empty());
    } else {
        let t = s.drop_last();
        let last = s.last();
        assert(ids_sorted(t)) by {
            assert forall|i: int, j: int| 0 <= i < j < t.len() implies (#[trigger] t[i]).0 < (
            #[trigger] t[j]).0 by {
                assert(t[i] == s[i] && t[j] == s[j]);
            }
        }
        lemma_map_len(t);
        assert forall|j: int| 0 <= j < t.len() implies (#[trigger] t[j]).0 < last.0 by {
            assert(t[j] == s[j]);
            assert(s[j].0 < s[s.len() - 1].0);
        }
        crate::id_map::lemma_insert_entry(t, t.len() as int, last.0, last.1);
        assert(t.insert(t.len() as int, last) =~= s);
        crate::id_map::lemma_absent_id(t, t.len() as int, last.0);
    }
}

} // verus!

verus! {

/// Whether the graph takes the link to `v` at the cost `cost`: every link is
/// taken unless costs are validated, in which case only usable costs are.
pub open spec fn keeps_link(cost: u64, validate_nonnegative: bool) -> bool {
    !validate_nonnegative || is_usable_cost(cost)
}

/// The links of `links` that the graph takes.
pub open spec fn kept_links(links: Seq<(u32, u64)>, n: int, validate_nonnegative: bool) -> Seq<
    (u32, u64),
>
    decreases n,
{
    if n <= 0 {
        Seq::empty()
    } else if keeps_link(links[n - 1].1, validate_nonnegative) {
        kept_links(links, n - 1, validate_nonnegative).push(links[n - 1])
    } else {
        kept_links(links, n - 1, validate_nonnegative)
    }
}

/// The links that are taken are links, in their order.
pub proof fn lemma_kept_links(links: Seq<(u32, u64)>, n: int, validate_nonnegative: bool)
    requires
        0 <= n <= links.len(),
        ids_sorted(links),
    ensures
        ids_sorted(kept_links(links, n, validate_nonnegative)),
        forall|j: int|
            0 <= j < kept_links(links, n, validate_nonnegative).len() ==> exists|k: int|
                0 <= k < n && #[trigger] kept_links(links, n, validate_nonnegative)[j]
                    == #[trigger] links[k],
    decreases n,
{
    if n > 0 {
        lemma_kept_links(links, n - 1, validate_nonnegative);
        let t = kept_links(links, n - 1, validate_nonnegative);
        let s = kept_links(links, n, validate_nonnegative);
        if keeps_link(links[n - 1].1, validate_nonnegative) {
            assert forall|j: int| 0 <= j < s.len() implies exists|k: int|
                0 <= k < n && #[trigger] s[j] == #[trigger] links[k] by {
                if j < t.len() {
                    let k = choose|k: int| 0 <= k < n - 1 && t[j] == #[trigger] links[k];
                    assert(s[j] == links[k]);
                } else {
                    assert(s[j] == links[n - 1]);
                }
            }
            assert forall|a: int, b: int| 0 <= a < b < s.len() implies (#[trigger] s[a]).0 < (
            #[trigger] s[b]).0 by {
                if b == t.len() {
                    let k = choose|k: int| 0 <= k < n - 1 && t[a] == #[trigger] links[k];
                    assert(links[k].0 < links[n - 1].0);
                } else {
                    assert(s[a] == t[a] && s[b] == t[b]);
                }
            }
        } else {
            assert forall|j: int| 0 <= j < s.len() implies exists|k: int|
                0 <= k < n && #[trigger] s[j] == #[trigger] links[k] by {
                let k = choose|k: int| 0 <= k < n - 1 && t[j] == #[trigger] links[k];
                assert(s[j] == links[k]);
            }
        }
    }
}

/// The links of `links` that the graph takes, as a row of the graph.
pub fn kept_row(links: &IdMap<u64>, validate_nonnegative: bool) -> (row: IdMap<u64>)
    ensures
        row@ == kept_links(links@, links@.len() as int, validate_nonnegative),
{
    let mut row: IdMap<u64> = IdMap::new();
    let n = links.len();
    let mut i: usize = 0;
    while i < n
        invariant
            i <= n,
            n == links@.len(),
            ids_sorted(links@),
            row@ == kept_links(links@, i as int, validate_nonnegative),
        decreases n - i,
    {
        let v = links.key_at(i);
        let cost = *links.value_at(i);
        if !validate_nonnegative || bits_is_usable_cost(cost) {
            proof {
                lemma_kept_links(links@, i as int, validate_nonnegative);
                assert forall|j: int| 0 <= j < row@.len() implies (#[trigger] row@[j]).0 < v by {
                    let k = choose|k: int| 0 <= k < i && row@[j] == #[trigger] links@[k];
                    assert(links@[k].0 < links@[i as int].0);
                }
            }
            row.append_greatest(v, cost);
        }
        i += 1;
    }
    row
}

/// Whether `graph` is the graph of the database `lsdb` around `router_id`:
/// each originator has the row of its links that are taken; every node that
/// such a link names and the router itself have a row, which is empty
/// unless they are originators; and there is no other row.
pub open spec fn is_graph_of(
    graph: Graph,
    lsdb: Seq<(u32, LinkStateRecord)>,
    router_id: u32,
    validate_nonnegative: bool,
) -> bool {
    &&& forall|j: int|
        0 <= j < lsdb.len() ==> graph.spec_map().contains_key((#[trigger] lsdb[j]).0)
            && graph.spec_map()[lsdb[j].0]@ == kept_links(
            lsdb[j].1.links@,
            lsdb[j].1.links@.len() as int,
            validate_nonnegative,
        )
    &&& graph.spec_map().contains_key(router_id)
    &&& forall|j: int, k: int|
        0 <= j < lsdb.len() && 0 <= k < kept_links(
            lsdb[j].1.links@,
            lsdb[j].1.links@.len() as int,
            validate_nonnegative,
        ).len() ==> graph.spec_map().contains_key(
            (#[trigger] kept_links(
                (#[trigger] lsdb[j]).1.links@,
                lsdb[j].1.links@.len() as int,
                validate_nonnegative,
            )[k]).0,
        )
    &&& forall|x: u32|
        #[trigger] graph.spec_map().contains_key(x) && !map_of(lsdb).contains_key(x)
            ==> graph.spec_map()[x]@.len() == 0 && (x == router_id || exists|j: int, k: int|
            0 <= j < lsdb.len() && 0 <= k < kept_links(
                lsdb[j].1.links@,
                lsdb[j].1.links@.len() as int,
                validate_nonnegative,
            ).len() && (#[trigger] kept_links(
                (#[trigger] lsdb[j]).1.links@,
                lsdb[j].1.links@.len() as int,
                validate_nonnegative,
            )[k]).0 == x)
}

impl LinkStateControlPlane {
    /// The graph of the link-state database around `router_id`.
    pub fn build_graph(&self, router_id: u32, validate_nonnegative: bool) -> (graph: Graph)
        ensures
            is_graph_of(graph, self.spec_lsdb()@, router_id, validate_nonnegative),
    {
        build_graph_of(&self.lsdb, router_id, validate_nonnegative)
    }
}

/// The graph of the database `lsdb` around `router_id`.
pub fn build_graph_of(lsdb: &LinkStateDb, router_id: u32, validate_nonnegative: bool) -> (graph: Graph)
    ensures
        is_graph_of(graph, lsdb@, router_id, validate_nonnegative),
{
    let records = lsdb.entries();
    let ghost db = lsdb@;
    let mut graph: Graph = IdMap::new();
    let n = records.len();
    // First the rows of the originators.
    let mut i: usize = 0;
    while i < n
        invariant
            i <= n,
            n == records@.len(),
            n == db.len(),
            ids_sorted(db),
            forall|j: int|
                0 <= j < n ==> (#[trigger] records@[j]).0 == db[j].0 && records@[j].1@ == db[j].1.links@,
            graph@.len() == i,
            forall|j: int|
                0 <= j < i ==> (#[trigger] graph@[j]).0 == db[j].0 && graph@[j].1@ == kept_links(
                    db[j].1.links@,
                    db[j].1.links@.len() as int,
                    validate_nonnegative,
                ),
        decreases n - i,
    {
        let row = kept_row(&records[i].1, validate_nonnegative);
        proof {
            assert forall|j: int| 0 <= j < graph@.len() implies (#[trigger] graph@[j]).0
                < records@[i as int].0 by {
                assert(db[j].0 < db[i as int].0);
            }
        }
        graph.append_greatest(records[i].0, row);
        i += 1;
    }
    let ghost rows = graph@;
    proof {
        assert forall|j: int| 0 <= j < n implies graph.spec_map().contains_key(
            (#[trigger] db[j]).0,
        ) && graph.spec_map()[db[j].0] == rows[j].1 by {
            crate::id_map::lemma_find_at(rows, j);
        }
        assert forall|x: u32| graph.spec_map().contains_key(x) implies map_of(db).contains_key(x) by {
            let j = choose|j: int| 0 <= j < rows.len() && (#[trigger] rows[j]).0 == x;
            assert(db[j].0 == x);
        }
    }
    // Then an empty row for every node that is named and has none.
    let mut j: usize = 0;
    while j < n
        invariant
            j <= n,
            n == records@.len(),
            n == db.len(),
            n == rows.len(),
            ids_sorted(db),
            forall|a: int| 0 <= a < n ==> (#[trigger] records@[a]).0 == db[a].0,
            forall|a: int|
                0 <= a < n ==> (#[trigger] rows[a]).0 == db[a].0 && rows[a].1@ == kept_links(
                    db[a].1.links@,
                    db[a].1.links@.len() as int,
                    validate_nonnegative,
                ),
            forall|a: int|
                0 <= a < n ==> graph.spec_map().contains_key((#[trigger] db[a]).0)
                    && graph.spec_map()[db[a].0] == rows[a].1,
            forall|a: int, k: int|
                0 <= a < j && 0 <= k < rows[a].1@.len() ==> graph.spec_map().contains_key(
                    (#[trigger] (#[trigger] rows[a]).1@[k]).0,
                ),
            forall|x: u32|
                #[trigger] graph.spec_map().contains_key(x) && !map_of(db).contains_key(x)
                    ==> graph.spec_map()[x]@.len() == 0 && exists|a: int, k: int|
                    0 <= a < j && 0 <= k < rows[a].1@.len() && (#[trigger] (
                    #[trigger] rows[a]).1@[k]).0 == x,
        decreases n - j,
    {
        let ghost row_view = rows[j as int].1@;
        assert(graph.spec_map().contains_key(db[j as int].0));
        let row = graph.get(records[j].0);
        let names: Vec<u32> = match row {
            Some(r) => row_keys(r),
            None => Vec::new(),
        };
        assert(names@.len() == row_view.len());
        let mut k: usize = 0;
        while k < names.len()
            invariant
                k <= names@.len(),
                j < n,
                n == db.len(),
                n == rows.len(),
                ids_sorted(db),
                names@.len() == row_view.len(),
                row_view == rows[j as int].1@,
                forall|b: int| 0 <= b < names@.len() ==> #[trigger] names@[b] == row_view[b].0,
                forall|a: int|
                    0 <= a < n ==> graph.spec_map().contains_key((#[trigger] db[a]).0)
                        && graph.spec_map()[db[a].0] == rows[a].1,
                forall|a: int, b: int|
                    0 <= a < j && 0 <= b < rows[a].1@.len() ==> graph.spec_map().contains_key(
                        (#[trigger] (#[trigger] rows[a]).1@[b]).0,
                    ),
                forall|b: int|
                    0 <= b < k ==> graph.spec_map().contains_key((#[trigger] row_view[b]).0),
                forall|x: u32|
                    #[trigger] graph.spec_map().contains_key(x) && !map_of(db).contains_key(x)
                        ==> graph.spec_map()[x]@.len() == 0 && exists|a: int, b: int|
                        0 <= a < j + 1 && 0 <= b < rows[a].1@.len() && (#[trigger] (
                        #[trigger] rows[a]).1@[b]).0 == x,
            decreases names.len() - k,
        {
            let v = names[k];
            if !graph.contains_key(v) {
                proof {
                    assert(!map_of(db).contains_key(v)) by {
                        if map_of(db).contains_key(v) {
                            let a = choose|a: int| 0 <= a < db.len() && (#[trigger] db[a]).0 == v;
                            assert(graph.spec_map().contains_key(db[a].0));
                        }
                    }
                }
                graph.insert(v, IdMap::new());
                proof {
                    assert forall|a: int| 0 <= a < n implies graph.spec_map().contains_key(
                        (#[trigger] db[a]).0,
                    ) && graph.spec_map()[db[a].0] == rows[a].1 by {
                        crate::id_map::lemma_find_at(db, a);
                    }
                    assert(rows[j as int].1@[k as int].0 == v);
                }
            }
            k += 1;
        }
        j += 1;
    }
    if !graph.contains_key(router_id) {
        proof {
            assert(!map_of(db).contains_key(router_id)) by {
                if map_of(db).contains_key(router_id) {
                    let a = choose|a: int| 0 <= a < db.len() && (#[trigger] db[a]).0 == router_id;
                    assert(graph.spec_map().contains_key(db[a].0));
                }
            }
        }
        graph.insert(router_id, IdMap::new());
        proof {
            assert forall|a: int| 0 <= a < n implies graph.spec_map().contains_key(
                (#[trigger] db[a]).0,
            ) && graph.spec_map()[db[a].0] == rows[a].1 by {
                crate::id_map::lemma_find_at(db, a);
            }
        }
    }
    graph
}

/// The keys of `row`, in ascending order.
pub fn row_keys(row: &IdMap<u64>) -> (keys: Vec<u32>)
    ensures
        keys@.len() == row@.len(),
        forall|b: int| 0 <= b < keys@.len() ==> #[trigger] keys@[b] == row@[b].0,
{
    let mut keys: Vec<u32> = Vec::new();
    let n = row.len();
    let mut i: usize = 0;
    while i < n
        invariant
            i <= n,
            n == row@.len(),
            keys@.len() == i,
            forall|b: int| 0 <= b < i ==> #[trigger] keys@[b] == row@[b].0,
        decreases n - i,
    {
        keys.push(row.key_at(i));
        i += 1;
    }
    keys
}

} // verus!
