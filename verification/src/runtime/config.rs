//! Configuration of the daemon, as plain values.

use vstd::prelude::*;
use std::collections::BTreeMap;
use crate::text::{chars_of, join_text, parse_unsigned, parsed_unsigned};
use crate::text_map::TextMap;

verus! {

/// How routes are installed into the host.
#[derive(Debug, Clone)]
pub struct ForwardingConfig {
    pub enabled: bool,
    pub dry_run: bool,
    pub table: u32,
    pub destination_prefixes: BTreeMap<u32, String>,
    pub next_hop_ips: BTreeMap<u32, String>,
}

impl Default for ForwardingConfig {
    /// Forwarding off, dry run on, the main table 254, no mappings.
    fn default() -> (c: ForwardingConfig)
        ensures
            !c.enabled,
            c.dry_run,
            c.table == 254,
            c.destination_prefixes@ == Map::<u32, String>::empty(),
            c.next_hop_ips@ == Map::<u32, String>::empty(),
    {
        ForwardingConfig {
            enabled: false,
            dry_run: true,
            table: 254,
            destination_prefixes: BTreeMap::new(),
            next_hop_ips: BTreeMap::new(),
        }
    }
}

/// The HTTP management endpoint.
#[derive(Debug, Clone)]
pub struct HttpManagementConfig {
    pub enabled: bool,
    pub bind_address: String,
    pub port: u16,
}

/// The gRPC management endpoint.
#[derive(Debug, Clone)]
pub struct GrpcManagementConfig {
    pub enabled: bool,
    pub bind_address: String,
    pub port: u16,
}

/// The management endpoints and the routing table they report on.
#[derive(Debug, Clone)]
pub struct ManagementConfig {
    pub http: HttpManagementConfig,
    pub grpc: GrpcManagementConfig,
    pub forwarding_table: u32,
}

/// One queueing-discipline profile as the configuration spells it.
#[derive(Debug, Clone)]
pub struct QdiscProfileConfig {
    pub kind: String,
    pub handle: Option<String>,
    pub parent: Option<String>,
    pub params: TextMap<String>,
}

/// The queueing-discipline section of the configuration: a default profile
/// and profiles by interface name.
#[derive(Debug, Clone)]
pub struct QdiscConfig {
    pub default: Option<QdiscProfileConfig>,
    pub interfaces: TextMap<QdiscProfileConfig>,
}

impl Default for QdiscConfig {
    fn default() -> (c: QdiscConfig)
        ensures
            c.default is None,
            c.interfaces@.len() == 0,
    {
        QdiscConfig { default: None, interfaces: TextMap::new() }
    }
}

/// The address an endpoint binds to: the configured one, else all interfaces.
pub fn endpoint_address(raw: Option<String>) -> (r: String)
    ensures
        r@ == (match raw {
            Some(a) => a@,
            None => "0.0.0.0"@,
        }),
{
    match raw {
        Some(a) => a,
        None => "0.0.0.0".to_owned(),
    }
}

/// The port an endpoint listens on: the configured one, else the daemon's
/// port plus `offset` where that is a port number, else the daemon's port.
pub open spec fn spec_endpoint_port(raw: Option<u16>, bind_port: u16, offset: u16) -> u16 {
    match raw {
        Some(port) => port,
        None => if bind_port + offset <= u16::MAX {
            (bind_port + offset) as u16
        } else {
            bind_port
        },
    }
}

/// The port an endpoint listens on.
pub fn endpoint_port(raw: Option<u16>, bind_port: u16, offset: u16) -> (r: u16)
    ensures
        r == spec_endpoint_port(raw, bind_port, offset),
{
    match raw {
        Some(port) => port,
        None => {
            let candidate: u32 = bind_port as u32 + offset as u32;
            if candidate <= u16::MAX as u32 {
                candidate as u16
            } else {
                bind_port
            }
        },
    }
}

/// Whether every key of `entries` spells a 32-bit unsigned number.
pub open spec fn all_keys_numeric(entries: Seq<(Seq<char>, String)>) -> bool {
    forall|i: int|
        0 <= i < entries.len() ==> parsed_unsigned((#[trigger] entries[i]).0, u32::MAX as nat)
            is Some
}

/// The first key of `entries` that does not spell a 32-bit unsigned number.
pub open spec fn first_bad_key(entries: Seq<(Seq<char>, String)>) -> Seq<char>
    decreases entries.len(),
{
    if entries.len() == 0 {
        Seq::empty()
    } else if parsed_unsigned(entries[0].0, u32::MAX as nat) is None {
        entries[0].0
    } else {
        first_bad_key(entries.drop_first())
    }
}

/// The numeric map that the first `n` of `entries` spell: each key parsed,
/// a later entry replacing an earlier one with the same number.
pub open spec fn numeric_map(entries: Seq<(Seq<char>, String)>, n: int) -> Map<u32, String>
    decreases n,
{
    if n <= 0 {
        Map::empty()
    } else {
        numeric_map(entries, n - 1).insert(
            parsed_unsigned(entries[n - 1].0, u32::MAX as nat).unwrap() as u32,
            entries[n - 1].1,
        )
    }
}

/// Turns a map keyed by decimal text into a map keyed by number. The first
/// key, in ascending text order, that is no 32-bit number is reported.
pub fn parse_int_key_map(raw: &TextMap<String>) -> (r: Result<BTreeMap<u32, String>, String>)
    ensures
        match r {
            Ok(m) => all_keys_numeric(raw@) && m@ == numeric_map(raw@, raw@.len() as int),
            Err(e) => !all_keys_numeric(raw@) && e@ == "invalid integer map key: "@ + first_bad_key(
                raw@,
            ),
        },
{
    broadcast use vstd::std_specs::btree::group_btree_axioms;

    let mut out: BTreeMap<u32, String> = BTreeMap::new();
    let n = raw.len();
    let mut i: usize = 0;
    assert(raw@.skip(0) =~= raw@);
    while i < n
        invariant
            i <= n,
            n == raw@.len(),
            out@ == numeric_map(raw@, i as int),
            forall|j: int|
                0 <= j < i ==> parsed_unsigned((#[trigger] raw@[j]).0, u32::MAX as nat) is Some,
            first_bad_key(raw@) == first_bad_key(raw@.skip(i as int)),
        decreases n - i,
    {
        let key = raw.key_at(i);
        let chars = chars_of(key);
        assert(chars@.subrange(0, chars@.len() as int) =~= chars@);
        proof {
            let rest = raw@.skip(i as int);
            assert(rest[0] == raw@[i as int]);
            assert(rest.drop_first() =~= raw@.skip(i + 1));
        }
        match parse_unsigned(&chars, 0, chars.len(), u32::MAX as u64) {
            Some(v) => {
                out.insert(v as u32, raw.value_at(i).clone());
            },
            None => {
                return Err(join_text("invalid integer map key: ", key));
            },
        }
        i += 1;
    }
    Ok(out)
}

} // verus!
