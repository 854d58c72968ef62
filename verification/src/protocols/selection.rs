//! How the multipath engines select one next hop: by hash among equal-cost
//! next hops, and with stickiness and exploration among the k best.

use vstd::prelude::*;
use crate::id_map::IdMap;
use crate::id_set::IdSet;
use crate::model::routing::Route;
use crate::protocols::ospf::{lemma_route_picks_prefix, route_picks};
use crate::rng::{lcg_next, LcgRng};
use crate::protocols::route_compute::strategy::rotate_left_13;

verus! {

/// The hash of a source and a destination under the seed `seed`, the seed
/// taken as it is.
pub open spec fn spec_seeded_hash(src: u32, destination: u32, seed: u64) -> u64 {
    let x1: u64 = seed ^ vstd::wrapping::u64_specs::wrapping_mul(src as u64, 0x9E37_79B1_85EB_CA87);
    let x2: u64 = rotate_left_13(x1);
    let x3: u64 = x2 ^ vstd::wrapping::u64_specs::wrapping_mul(
        destination as u64,
        0xC2B2_AE3D_27D4_EB4F,
    );
    let x4: u64 = x3 ^ (x3 >> 33);
    let x5: u64 = vstd::wrapping::u64_specs::wrapping_mul(x4, 0xFF51_AFD7_ED55_8CCD);
    x5 ^ (x5 >> 33)
}

/// The hash of a source and a destination under the seed `seed`.
pub fn seeded_hash(src: u32, destination: u32, seed: u64) -> (r: u64)
    ensures
        r == spec_seeded_hash(src, destination, seed),
{
    let mut x: u64 = seed;
    x = x ^ (src as u64).wrapping_mul(0x9E37_79B1_85EB_CA87);
    x = (x << 13) | (x >> 51);
    x = x ^ (destination as u64).wrapping_mul(0xC2B2_AE3D_27D4_EB4F);
    x = x ^ (x >> 33);
    x = x.wrapping_mul(0xFF51_AFD7_ED55_8CCD);
    x = x ^ (x >> 33);
    x
}

/// The next hop that the hash points at among the next hops `hops` in
/// ascending order; none where there is no next hop.
pub fn pick_next_hop(src: u32, destination: u32, hops: &IdSet, seed: u64) -> (r: Option<u32>)
    ensures
        hops@.len() == 0 ==> r is None,
        hops@.len() > 0 ==> r == Some(
            hops@[(spec_seeded_hash(src, destination, seed) % (hops@.len() as u64)) as int],
        ),
{
    let n = hops.len();
    if n == 0 {
        return None;
    }
    let idx = seeded_hash(src, destination, seed) % (n as u64);
    Some(hops.get_at(idx as usize))
}

/// Whether `r` is the route that the equal-cost result gives for
/// `destination`: one exists if the destination is not the source and has
/// first hops; it is a host route at the distance found through the first
/// hop that the hash points at.
pub open spec fn is_hashed_route(
    r: Option<Route>,
    src: u32,
    destination: u32,
    metric: u64,
    first_hops: Map<u32, IdSet>,
    seed: u64,
    protocol: Seq<char>,
) -> bool {
    let reachable = destination != src && first_hops.contains_key(destination)
        && first_hops[destination]@.len() > 0;
    match r {
        None => !reachable,
        Some(route) => {
            &&& reachable
            &&& route.destination == destination
            &&& route.next_hop == first_hops[destination]@[(spec_seeded_hash(src, destination, seed)
                % (first_hops[destination]@.len() as u64)) as int]
            &&& route.metric == metric
            &&& route.protocol@ == protocol
            &&& route.entry.spec_dest() == destination
            &&& route.entry.spec_gateway() == Some(route.next_hop)
            &&& route.entry.spec_prefix_len() == 32
        },
    }
}

/// The route that the equal-cost result gives for `destination`.
pub fn hashed_route(
    src: u32,
    destination: u32,
    metric: u64,
    first_hops: &IdMap<IdSet>,
    seed: u64,
    protocol: &str,
) -> (r: Option<Route>)
    ensures
        is_hashed_route(r, src, destination, metric, first_hops.spec_map(), seed, protocol@),
{
    if destination == src {
        return None;
    }
    match first_hops.get(destination) {
        None => None,
        Some(hops) => match pick_next_hop(src, destination, hops, seed) {
            None => None,
            Some(next_hop) => Some(Route::new_host(destination, next_hop, metric, protocol)),
        },
    }
}

/// The routes of an equal-cost result: for each destination of `dist`, in
/// ascending order, the route that [`is_hashed_route`] describes, where
/// there is one.
pub fn routes_by_hash(src: u32, dist: &IdMap<u64>, first_hops: &IdMap<IdSet>, seed: u64, protocol: &str) -> (out:
    Vec<Route>)
    ensures
        exists|options: Seq<Option<Route>>|
            #![trigger route_picks(options, dist@.len() as int)]
            options.len() == dist@.len() && out@ == route_picks(options, dist@.len() as int)
                && forall|j: int|
                0 <= j < dist@.len() ==> is_hashed_route(
                    #[trigger] options[j],
                    src,
                    dist@[j].0,
                    dist@[j].1,
                    first_hops.spec_map(),
                    seed,
                    protocol@,
                ),
{
    let mut out: Vec<Route> = Vec::new();
    let ghost mut options: Seq<Option<Route>> = Seq::empty();
    let n = dist.len();
    let mut i: usize = 0;
    while i < n
        invariant
            i <= n,
            n == dist@.len(),
            options.len() == i,
            out@ == route_picks(options, i as int),
            forall|j: int|
                0 <= j < i ==> is_hashed_route(
                    #[trigger] options[j],
                    src,
                    dist@[j].0,
                    dist@[j].1,
                    first_hops.spec_map(),
                    seed,
                    protocol@,
                ),
        decreases n - i,
    {
        let r = hashed_route(src, dist.key_at(i), *dist.value_at(i), first_hops, seed, protocol);
        let ghost before = options;
        proof {
            options = options.push(r);
            lemma_route_picks_prefix(before, options, i as int);
        }
        match r {
            Some(route) => {
                out.push(route);
            },
            None => {},
        }
        i += 1;
    }
    out
}

/// Whether `i` is the first place of `hop` among `hops`.
pub open spec fn is_first_place(hops: Seq<u32>, hop: u32, i: int) -> bool {
    0 <= i < hops.len() && hops[i] == hop && forall|j: int| 0 <= j < i ==> hops[j] != hop
}

/// Whether `idx` is the choice among the candidates with the next hops
/// `hops`, best first, that takes a generator from the state `state` to the
/// state `after`: the first candidate of the next hop that is still held,
/// if there is one; else the only candidate; else, where the next 53-bit
/// draw is below `explore_threshold`, the candidate at a further draw; else
/// the best. Only the last two draw.
pub open spec fn is_choice(
    hops: Seq<u32>,
    held: Option<u32>,
    explore_threshold: u64,
    state: u64,
    idx: int,
    after: u64,
) -> bool {
    let s1 = lcg_next(state);
    let s2 = lcg_next(s1);
    if held is Some && hops.contains(held.unwrap()) {
        is_first_place(hops, held.unwrap(), idx) && after == state
    } else if hops.len() == 1 {
        idx == 0 && after == state
    } else if s1 / 2048 < explore_threshold {
        idx == (s2 / 0x1_0000_0000) % (hops.len() as u64) && after == s2
    } else {
        idx == 0 && after == s1
    }
}

/// Chooses among the candidates with the next hops `hops`, best first, as
/// [`is_choice`] says. `held` is the next hop selected before, where its
/// hold time has not run out; `explore_threshold` is the exploration
/// probability as a count of 53-bit draws.
pub fn choose_candidate(hops: &[u32], held: Option<u32>, explore_threshold: u64, rng: &mut LcgRng) -> (idx: usize)
    requires
        hops@.len() > 0,
    ensures
        idx < hops@.len(),
        is_choice(
            hops@,
            held,
            explore_threshold,
            old(rng).spec_state(),
            idx as int,
            final(rng).spec_state(),
        ),
{
    if let Some(h) = held {
        let mut i: usize = 0;
        while i < hops.len()
            invariant
                i <= hops@.len(),
                held == Some(h),
                *rng == *old(rng),
                forall|j: int| 0 <= j < i ==> hops@[j] != h,
            decreases hops.len() - i,
        {
            if hops[i] == h {
                assert(hops@[i as int] == h);
                assert(hops@.contains(h));
                return i;
            }
            i += 1;
        }
        assert(!hops@.contains(h));
    }
    if hops.len() == 1 {
        return 0;
    }
    let draw = rng.next_u64() / 2048;
    if draw < explore_threshold {
        return rng.next_index(hops.len());
    }
    0
}

} // verus!
