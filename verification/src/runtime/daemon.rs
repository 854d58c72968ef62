//! What the daemon decides between receiving and sending: the context that
//! it hands to its engine, which messages it takes, and what follows from a
//! set of routes.

use vstd::prelude::*;
use crate::id_map::{ids_sorted, map_of, IdMap};
use crate::model::messages::ControlMessage;
use crate::model::routing::{
    entries_eq, fib_of, is_table_of, routes_eq, routes_not_of, ForwardingEntry, ForwardingTable, Route,
    RouteTable,
};
use crate::model::state::{NeighborInfo, NeighborTable};
use crate::protocols::base::{QdiscAction, QdiscLinkSnapshot, RouterLink};
use crate::runtime::qdisc::controller::QdiscController;
use crate::runtime::qdisc::driver::QdiscRuntimeStats;
use crate::runtime::qdisc::strategy::QdiscKind;
use crate::text::{
    chars_of, lemma_text_less_irreflexive, str_eq, string_of, text_less, trim_bounds, trimmed,
};
use crate::text_map::{has_key, keys_sorted, lemma_lookup_at, TextMap};

verus! {

/// The link that the engines see for the neighbour `info` under the id `id`.
pub open spec fn spec_link_of(id: u32, info: NeighborInfo) -> RouterLink {
    RouterLink {
        neighbor_id: id,
        cost: info.cost,
        address: info.address,
        port: info.port,
        interface_name: info.interface_name,
        is_up: info.is_up,
    }
}

/// The link that the engines see for the neighbour `info` under the id `id`.
pub fn link_of(id: u32, info: &NeighborInfo) -> (link: RouterLink)
    ensures
        link == spec_link_of(id, *info),
{
    RouterLink {
        neighbor_id: id,
        cost: info.cost,
        address: info.address.clone(),
        port: info.port,
        interface_name: info.interface_name.clone(),
        is_up: info.is_up,
    }
}

/// The links of the engine's context: one for each neighbour, under the
/// neighbour's id.
pub fn links_of(neighbors: &NeighborTable) -> (links: IdMap<RouterLink>)
    ensures
        links@.len() == neighbors@.len(),
        forall|i: int|
            0 <= i < links@.len() ==> (#[trigger] links@[i]).0 == neighbors@[i].0 && links@[i].1
                == spec_link_of(neighbors@[i].0, neighbors@[i].1),
{
    let n = neighbors.len();
    let all = neighbors.iter();
    let mut links: IdMap<RouterLink> = IdMap::new();
    let mut i: usize = 0;
    while i < n
        invariant
            i <= n,
            n == all@.len(),
            all@ == neighbors@,
            ids_sorted(all@),
            links@.len() == i,
            forall|j: int|
                0 <= j < i ==> (#[trigger] links@[j]).0 == all@[j].0 && links@[j].1 == spec_link_of(
                    all@[j].0,
                    all@[j].1,
                ),
        decreases n - i,
    {
        let id = all[i].0;
        let link = link_of(id, &all[i].1);
        proof {
            if i > 0 {
                assert(links@[i - 1].0 == all@[i - 1].0);
                assert(all@[i - 1].0 < all@[i as int].0);
            }
        }
        links.append_greatest(id, link);
        i += 1;
    }
    links
}

/// The interface behind a neighbour: its configured name without
/// surrounding whitespace, unless nothing is left of it.
pub open spec fn spec_interface_of(info: NeighborInfo) -> Option<Seq<char>> {
    match info.interface_name {
        Some(name) => if trimmed(name@).len() > 0 {
            Some(trimmed(name@))
        } else {
            None
        },
        None => None,
    }
}

/// The interface behind a neighbour, if one is configured.
pub fn interface_of(info: &NeighborInfo) -> (r: Option<String>)
    ensures
        match r {
            Some(name) => spec_interface_of(*info) == Some(name@),
            None => spec_interface_of(*info) is None,
        },
{
    match &info.interface_name {
        Some(name) => {
            let v = chars_of(name.as_str());
            let (a, b) = trim_bounds(&v);
            if a < b {
                Some(string_of(&v, a, b))
            } else {
                None
            }
        },
        None => None,
    }
}

/// What was last read of the queueing discipline of an interface, or why
/// nothing could be read.
#[derive(Debug, Clone)]
pub struct QdiscSnapshot {
    pub interface_name: String,
    pub kind: Option<String>,
    pub backlog_bytes: Option<u64>,
    pub backlog_packets: Option<u64>,
    pub drops: Option<u64>,
    pub overlimits: Option<u64>,
    pub requeues: Option<u64>,
    pub error: Option<String>,
}

/// The snapshot of the interface `iface` whose statistics are `stats`.
pub fn snapshot_of_stats(iface: &str, stats: QdiscRuntimeStats) -> (s: QdiscSnapshot)
    ensures
        s.interface_name@ == iface@,
        s.kind == stats.kind,
        s.backlog_bytes == stats.backlog_bytes,
        s.backlog_packets == stats.backlog_packets,
        s.drops == stats.drops,
        s.overlimits == stats.overlimits,
        s.requeues == stats.requeues,
        s.error is None,
{
    QdiscSnapshot {
        interface_name: iface.to_owned(),
        kind: stats.kind,
        backlog_bytes: stats.backlog_bytes,
        backlog_packets: stats.backlog_packets,
        drops: stats.drops,
        overlimits: stats.overlimits,
        requeues: stats.requeues,
        error: None,
    }
}

/// The snapshot of the interface `iface` whose statistics could not be read.
pub fn snapshot_of_error(iface: &str, error: String) -> (s: QdiscSnapshot)
    ensures
        s.interface_name@ == iface@,
        s.kind is None,
        s.backlog_bytes is None,
        s.backlog_packets is None,
        s.drops is None,
        s.overlimits is None,
        s.requeues is None,
        s.error == Some(error),
{
    QdiscSnapshot {
        interface_name: iface.to_owned(),
        kind: None,
        backlog_bytes: None,
        backlog_packets: None,
        drops: None,
        overlimits: None,
        requeues: None,
        error: Some(error),
    }
}

/// Whether `link` says of the interface `iface` what `snapshot` holds; with
/// no snapshot it names the interface and says nothing more.
pub open spec fn is_link_snapshot(
    link: QdiscLinkSnapshot,
    iface: Seq<char>,
    snapshot: Option<QdiscSnapshot>,
) -> bool {
    &&& link.interface_name is Some
    &&& link.interface_name->0@ == iface
    &&& match snapshot {
        Some(s) => {
            &&& link.kind == s.kind
            &&& link.backlog_bytes == s.backlog_bytes
            &&& link.backlog_packets == s.backlog_packets
            &&& link.drops == s.drops
            &&& link.overlimits == s.overlimits
            &&& link.requeues == s.requeues
            &&& link.error == s.error
        },
        None => {
            &&& link.kind is None
            &&& link.backlog_bytes is None
            &&& link.backlog_packets is None
            &&& link.drops is None
            &&& link.overlimits is None
            &&& link.requeues is None
            &&& link.error is None
        },
    }
}

/// What an engine is told of the interface `iface`.
pub fn link_snapshot(iface: String, snapshot: Option<&QdiscSnapshot>) -> (link: QdiscLinkSnapshot)
    ensures
        is_link_snapshot(
            link,
            iface@,
            match snapshot {
                Some(s) => Some(*s),
                None => None,
            },
        ),
{
    match snapshot {
        Some(s) => QdiscLinkSnapshot {
            interface_name: Some(iface),
            kind: s.kind.clone(),
            backlog_bytes: s.backlog_bytes,
            backlog_packets: s.backlog_packets,
            drops: s.drops,
            overlimits: s.overlimits,
            requeues: s.requeues,
            error: s.error.clone(),
        },
        None => QdiscLinkSnapshot {
            interface_name: Some(iface),
            kind: None,
            backlog_bytes: None,
            backlog_packets: None,
            drops: None,
            overlimits: None,
            requeues: None,
            error: None,
        },
    }
}

/// What the engine is told of the queueing disciplines: an entry for each
/// neighbour behind a named interface, holding the snapshot of that
/// interface where there is one.
pub fn qdisc_by_neighbor(neighbors: &NeighborTable, snapshots: &TextMap<QdiscSnapshot>) -> (out:
    IdMap<QdiscLinkSnapshot>)
    ensures
        forall|i: int|
            0 <= i < neighbors@.len() ==> match spec_interface_of((#[trigger] neighbors@[i]).1) {
                Some(iface) => out.spec_map().contains_key(neighbors@[i].0) && is_link_snapshot(
                    out.spec_map()[neighbors@[i].0],
                    iface,
                    snapshots.spec_get(iface),
                ),
                None => !out.spec_map().contains_key(neighbors@[i].0),
            },
        forall|id: u32|
            out.spec_map().contains_key(id) ==> exists|i: int|
                0 <= i < neighbors@.len() && (#[trigger] neighbors@[i]).0 == id,
{
    let n = neighbors.len();
    let all = neighbors.iter();
    let mut out: IdMap<QdiscLinkSnapshot> = IdMap::new();
    let mut i: usize = 0;
    while i < n
        invariant
            i <= n,
            n == all@.len(),
            all@ == neighbors@,
            ids_sorted(all@),
            forall|j: int|
                0 <= j < i ==> match spec_interface_of((#[trigger] all@[j]).1) {
                    Some(iface) => out.spec_map().contains_key(all@[j].0) && is_link_snapshot(
                        out.spec_map()[all@[j].0],
                        iface,
                        snapshots.spec_get(iface),
                    ),
                    None => !out.spec_map().contains_key(all@[j].0),
                },
            forall|id: u32|
                out.spec_map().contains_key(id) ==> exists|j: int|
                    0 <= j < i && (#[trigger] all@[j]).0 == id,
        decreases n - i,
    {
        let id = all[i].0;
        let ghost before = out.spec_map();
        proof {
            if before.contains_key(id) {
                let j = choose|j: int| 0 <= j < i && (#[trigger] all@[j]).0 == id;
                assert(all@[j].0 < all@[i as int].0);
            }
        }
        match interface_of(&all[i].1) {
            Some(iface) => {
                let link = link_snapshot(iface.clone(), snapshots.get(iface.as_str()));
                out.insert(id, link);
                assert forall|j: int| 0 <= j < i implies all@[j].0 != id by {
                    assert(all@[j].0 < all@[i as int].0);
                }
            },
            None => {},
        }
        i += 1;
    }
    out
}

/// The text of an optional string.
pub open spec fn text_of(o: Option<String>) -> Option<Seq<char>> {
    match o {
        Some(t) => Some(t@),
        None => None,
    }
}

/// Whether two optional strings hold the same text.
pub fn opt_text_eq(a: &Option<String>, b: &Option<String>) -> (r: bool)
    ensures
        r == (text_of(*a) == text_of(*b)),
{
    match (a, b) {
        (Some(x), Some(y)) => str_eq(x.as_str(), y.as_str()),
        (None, None) => true,
        _ => false,
    }
}

/// Whether two snapshots say the same of the same interface.
pub open spec fn same_snapshot(a: QdiscSnapshot, b: QdiscSnapshot) -> bool {
    &&& a.interface_name@ == b.interface_name@
    &&& text_of(a.kind) == text_of(b.kind)
    &&& a.backlog_bytes == b.backlog_bytes
    &&& a.backlog_packets == b.backlog_packets
    &&& a.drops == b.drops
    &&& a.overlimits == b.overlimits
    &&& a.requeues == b.requeues
    &&& text_of(a.error) == text_of(b.error)
}

/// Whether two snapshots say the same of the same interface.
pub fn snapshots_equal(a: &QdiscSnapshot, b: &QdiscSnapshot) -> (r: bool)
    ensures
        r == same_snapshot(*a, *b),
{
    str_eq(a.interface_name.as_str(), b.interface_name.as_str()) && opt_text_eq(&a.kind, &b.kind)
        && a.backlog_bytes == b.backlog_bytes && a.backlog_packets == b.backlog_packets && a.drops
        == b.drops && a.overlimits == b.overlimits && a.requeues == b.requeues && opt_text_eq(
        &a.error,
        &b.error,
    )
}

impl QdiscSnapshot {
    /// A copy of the snapshot.
    pub fn duplicate(&self) -> (r: Self)
        ensures
            r == *self,
    {
        QdiscSnapshot {
            interface_name: self.interface_name.clone(),
            kind: self.kind.clone(),
            backlog_bytes: self.backlog_bytes,
            backlog_packets: self.backlog_packets,
            drops: self.drops,
            overlimits: self.overlimits,
            requeues: self.requeues,
            error: self.error.clone(),
        }
    }
}

/// Stores `next` under its interface and tells whether it says anything
/// new: whether there was no snapshot of that interface, or another one.
pub fn store_snapshot(snapshots: &mut TextMap<QdiscSnapshot>, next: QdiscSnapshot) -> (changed: bool)
    ensures
        final(snapshots).spec_map() == old(snapshots).spec_map().insert(next.interface_name@, next),
        forall|k: Seq<char>|
            #[trigger] final(snapshots).spec_get(k) == (if k == next.interface_name@ {
                Some(next)
            } else {
                old(snapshots).spec_get(k)
            }),
        changed == !(old(snapshots).spec_get(next.interface_name@) is Some && same_snapshot(
            old(snapshots).spec_get(next.interface_name@)->0,
            next,
        )),
{
    let changed = match snapshots.get(next.interface_name.as_str()) {
        Some(current) => !snapshots_equal(current, &next),
        None => true,
    };
    let key = next.interface_name.clone();
    snapshots.insert(key, next);
    changed
}

/// The snapshots of the interfaces that are still watched: every snapshot
/// whose interface is a key of `watched`, and no other.
pub fn prune_snapshots(snapshots: &TextMap<QdiscSnapshot>, watched: &TextMap<bool>) -> (kept: TextMap<
    QdiscSnapshot,
>)
    ensures
        forall|k: Seq<char>|
            #[trigger] kept.spec_get(k) == (if watched.spec_get(k) is Some {
                snapshots.spec_get(k)
            } else {
                None
            }),
        kept@.len() <= snapshots@.len(),
{
    let n = snapshots.len();
    let mut kept: TextMap<QdiscSnapshot> = TextMap::new();
    let mut i: usize = 0;
    assert forall|k: Seq<char>| #[trigger] kept.spec_get(k) is None by {}
    while i < n
        invariant
            i <= n,
            n == snapshots@.len(),
            keys_sorted(snapshots@),
            kept@.len() <= i,
            forall|j: int|
                0 <= j < i ==> kept.spec_get((#[trigger] snapshots@[j]).0) == (if watched.spec_get(
                    snapshots@[j].0,
                ) is Some {
                    Some(snapshots@[j].1)
                } else {
                    None
                }),
            forall|k: Seq<char>|
                #[trigger] kept.spec_get(k) is Some ==> exists|j: int|
                    0 <= j < i && (#[trigger] snapshots@[j]).0 == k,
        decreases n - i,
    {
        let key = snapshots.key_at(i);
        let ghost before = kept;
        proof {
            lemma_text_less_irreflexive(key@);
            assert forall|j: int| 0 <= j < i implies (#[trigger] snapshots@[j]).0 != key@ by {
                assert(text_less(snapshots@[j].0, snapshots@[i as int].0));
            }
            if before.spec_get(key@) is Some {
                let j = choose|j: int| 0 <= j < i && (#[trigger] snapshots@[j]).0 == key@;
                assert(false);
            }
        }
        if watched.contains_key(key) {
            kept.insert(key.to_owned(), snapshots.value_at(i).duplicate());
        }
        i += 1;
    }
    assert forall|k: Seq<char>|
        #[trigger] kept.spec_get(k) == (if watched.spec_get(k) is Some {
            snapshots.spec_get(k)
        } else {
            None
        }) by {
        if has_key(snapshots@, k) {
            let j = choose|j: int| 0 <= j < snapshots@.len() && (#[trigger] snapshots@[j]).0 == k;
            lemma_lookup_at(snapshots@, j);
        } else {
            if kept.spec_get(k) is Some {
                let j = choose|j: int| 0 <= j < n && (#[trigger] snapshots@[j]).0 == k;
                assert(false);
            }
        }
    }
    kept
}

/// Whether the daemon running `protocol_name` takes `message`: it is of
/// that protocol and comes from a configured neighbour.
pub fn accepts_message(protocol_name: &str, message: &ControlMessage, neighbors: &NeighborTable) -> (r:
    bool)
    ensures
        r == (message.protocol@ == protocol_name@ && neighbors.spec_map().contains_key(
            message.src_router_id,
        )),
{
    str_eq(message.protocol.as_str(), protocol_name) && neighbors.get(message.src_router_id).is_some()
}

/// What became of the tables when a set of routes was taken in.
#[derive(Debug, Clone, Copy, PartialEq, Eq, Structural)]
pub struct RouteCommit {
    pub rib_updated: bool,
    pub fib_updated: bool,
}

impl RouteCommit {
    /// Whether the forwarding entries must be installed anew: only when the
    /// forwarding table changed.
    pub fn must_apply(self) -> (r: bool)
        ensures
            r == self.fib_updated,
    {
        self.fib_updated
    }

    /// Whether a new snapshot must be published: when a table changed, or
    /// the queueing disciplines did.
    pub fn must_publish(self, qdisc_changed: bool) -> (r: bool)
        ensures
            r == (self.rib_updated || self.fib_updated || qdisc_changed),
    {
        self.rib_updated || self.fib_updated || qdisc_changed
    }
}

/// Takes in the routes of `protocol`: `protocol_routes` replace its routes
/// in the routing table, and the forwarding table is recomputed from
/// `selected`, the routes that the decision engine let through.
pub fn commit_routes(
    rib: &mut RouteTable,
    fib: &mut ForwardingTable,
    protocol: &str,
    protocol_routes: &[Route],
    selected: &[Route],
) -> (commit: RouteCommit)
    ensures
        exists|next: Seq<Route>|
            #![trigger is_table_of(next, routes_not_of(old(rib)@, protocol@) + protocol_routes@)]
            is_table_of(next, routes_not_of(old(rib)@, protocol@) + protocol_routes@)
                && commit.rib_updated == !routes_eq(next, old(rib)@) && final(rib)@ == (
            if commit.rib_updated {
                next
            } else {
                old(rib)@
            }),
        exists|next: Seq<(u32, ForwardingEntry)>|
            #![trigger map_of(next)]
            ids_sorted(next) && map_of(next) == fib_of(selected@, selected@.len() as int)
                && commit.fib_updated == !entries_eq(next, old(fib)@) && final(fib)@ == (
            if commit.fib_updated {
                next
            } else {
                old(fib)@
            }),
{
    let rib_updated = rib.replace_protocol_routes(protocol, protocol_routes);
    let fib_updated = fib.sync_from_routes(selected);
    RouteCommit { rib_updated, fib_updated }
}

/// The interface that `action` is about.
pub fn action_interface(action: &QdiscAction) -> (name: &str)
    ensures
        name@ == (match *action {
            QdiscAction::ApplyDefault { interface_name } => interface_name@,
            QdiscAction::ApplyProfile { interface_name, .. } => interface_name@,
            QdiscAction::Clear { interface_name } => interface_name@,
        }),
{
    match action {
        QdiscAction::ApplyDefault { interface_name } => interface_name.as_str(),
        QdiscAction::ApplyProfile { interface_name, .. } => interface_name.as_str(),
        QdiscAction::Clear { interface_name } => interface_name.as_str(),
    }
}

/// Carries out `action` through `controller` and hands on the answer of
/// the driver. What never reaches the driver has its own outcome: a default
/// action on an interface without a profile succeeds, and a profile of an
/// unknown kind is reported.
pub fn apply_action(controller: &QdiscController, action: &QdiscAction) -> (r: Result<(), String>)
    ensures
        match *action {
            QdiscAction::ApplyDefault { interface_name } => controller.spec_applied(
                interface_name@,
                r,
            ),
            QdiscAction::ApplyProfile { interface_name, kind, handle, params } => controller.spec_applied_custom(
                interface_name@,
                kind@,
                match handle {
                    Some(h) => Some(h@),
                    None => None,
                },
                params@,
                r,
            ),
            QdiscAction::Clear { interface_name } => controller.driver_answers_delete(
                interface_name@,
                r,
            ),
        },
        match *action {
            QdiscAction::ApplyDefault { interface_name } => controller.spec_profile_for(
                interface_name@,
            ) is None ==> r is Ok,
            QdiscAction::ApplyProfile { kind, .. } => QdiscKind::spec_parse(kind@) matches Err(e)
                ==> r matches Err(got) && got@ == e,
            QdiscAction::Clear { .. } => true,
        },
{
    match action {
        QdiscAction::ApplyDefault { interface_name } => controller.apply_for_interface(
            interface_name.as_str(),
        ),
        QdiscAction::ApplyProfile { interface_name, kind, handle, params } => {
            let handle_text: Option<&str> = match handle {
                Some(h) => Some(h.as_str()),
                None => None,
            };
            controller.apply_custom_for_interface(
                interface_name.as_str(),
                kind.as_str(),
                handle_text,
                params,
            )
        },
        QdiscAction::Clear { interface_name } => controller.clear_for_interface(
            interface_name.as_str(),
        ),
    }
}

} // verus!
