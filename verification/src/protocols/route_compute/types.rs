//! The values that route computations take and give.

use vstd::prelude::*;
use crate::id_map::IdMap;
use crate::id_set::IdSet;
use crate::model::metric::{bits_le, bits_lt, num_le, num_lt};

verus! {

/// A directed graph: for each node, the cost of the link to each neighbour.
pub type Graph = IdMap<IdMap<u64>>;

/// A directed graph whose links carry several metrics.
pub type MultiMetricGraph = IdMap<IdMap<LinkMetrics>>;

/// A path and its cost.
#[derive(Debug, Clone)]
pub struct PathCandidate {
    pub nodes: Vec<u32>,
    pub cost: u64,
}

/// Distances and first hops from one source.
#[derive(Debug, Clone)]
pub struct SpfSingleResult {
    pub dist: IdMap<u64>,
    pub first_hop: IdMap<u32>,
}

/// A shortest-path tree: distances, first hops and parents.
#[derive(Debug, Clone)]
pub struct SpfTreeResult {
    pub dist: IdMap<u64>,
    pub first_hop: IdMap<u32>,
    pub parent: IdMap<u32>,
}

impl SpfTreeResult {
    /// The distances and first hops of the tree.
    pub fn into_single(self) -> (r: SpfSingleResult)
        ensures
            r.dist == self.dist,
            r.first_hop == self.first_hop,
    {
        SpfSingleResult { dist: self.dist, first_hop: self.first_hop }
    }
}

/// Distances and the sets of equal-cost first hops from one source.
#[derive(Debug, Clone)]
pub struct SpfEcmpResult {
    pub dist: IdMap<u64>,
    pub first_hops: IdMap<IdSet>,
}

/// A change of the cost of one link; an absent cost means an absent link.
#[derive(Debug, Clone, Copy)]
pub struct EdgeUpdate {
    pub from: u32,
    pub to: u32,
    pub old_cost: Option<u64>,
    pub new_cost: Option<u64>,
}

/// The tree after an incremental computation, and how it was obtained.
#[derive(Debug, Clone)]
pub struct IncrementalSpfResult {
    pub tree: SpfTreeResult,
    pub affected_nodes: IdSet,
    pub used_full_recompute: bool,
}

/// Distances and predecessors of a Bellman-Ford run, and the nodes that a
/// negative cycle reaches.
#[derive(Debug, Clone)]
pub struct BellmanFordResult {
    pub dist: IdMap<u64>,
    pub predecessor: IdMap<u32>,
    pub negative_cycle_nodes: IdSet,
}

impl BellmanFordResult {
    /// Whether a negative cycle was found.
    pub fn has_negative_cycle(&self) -> (r: bool)
        ensures
            r == (self.negative_cycle_nodes@.len() > 0),
    {
        !self.negative_cycle_nodes.is_empty()
    }
}

/// The metrics of one link.
#[derive(Debug, Clone, Copy)]
pub struct LinkMetrics {
    pub weight: u64,
    pub bandwidth: u64,
    pub delay: u64,
    pub loss: u64,
    pub utilization: u64,
}

/// Bounds that a link must meet to be used.
#[derive(Debug, Clone, Copy)]
pub struct LinkConstraints {
    pub min_bandwidth: Option<u64>,
    pub max_delay: Option<u64>,
    pub max_loss: Option<u64>,
    pub max_utilization: Option<u64>,
}

impl Default for LinkConstraints {
    fn default() -> (c: LinkConstraints)
        ensures
            c.min_bandwidth is None,
            c.max_delay is None,
            c.max_loss is None,
            c.max_utilization is None,
    {
        LinkConstraints { min_bandwidth: None, max_delay: None, max_loss: None, max_utilization: None }
    }
}

/// The weights of a linear combination of link metrics.
#[derive(Debug, Clone, Copy)]
pub struct WeightedSumCoefficients {
    pub weight: u64,
    pub delay: u64,
    pub loss: u64,
    pub utilization: u64,
}

/// The pattern of the number one.
pub const ONE_BITS: u64 = 0x3ff0_0000_0000_0000;

impl Default for WeightedSumCoefficients {
    /// The weight alone counts, once.
    fn default() -> (c: WeightedSumCoefficients)
        ensures
            c == (WeightedSumCoefficients { weight: ONE_BITS, delay: 0, loss: 0, utilization: 0 }),
    {
        WeightedSumCoefficients { weight: ONE_BITS, delay: 0, loss: 0, utilization: 0 }
    }
}

/// The cost of a path in three objectives.
#[derive(Debug, Clone, Copy, PartialEq)]
pub struct MultiObjectiveCost {
    pub delay: u64,
    pub loss: u64,
    pub utilization: u64,
}

impl MultiObjectiveCost {
    /// The cost of the empty path.
    pub fn zero() -> (c: Self)
        ensures
            c == (MultiObjectiveCost { delay: 0, loss: 0, utilization: 0 }),
    {
        Self { delay: 0, loss: 0, utilization: 0 }
    }

    /// Whether this cost is no worse than `other` in every objective.
    pub open spec fn no_worse(self, other: Self) -> bool {
        num_le(self.delay, other.delay) && num_le(self.loss, other.loss) && num_le(
            self.utilization,
            other.utilization,
        )
    }

    /// Whether this cost is better than `other` in some objective.
    pub open spec fn somewhere_better(self, other: Self) -> bool {
        num_lt(self.delay, other.delay) || num_lt(self.loss, other.loss) || num_lt(
            self.utilization,
            other.utilization,
        )
    }

    /// Whether this cost dominates `other`: no worse in every objective and
    /// better in one.
    pub open spec fn spec_dominates(self, other: Self) -> bool {
        self.no_worse(other) && self.somewhere_better(other)
    }

    /// Whether this cost dominates `other`.
    pub fn dominates(self, other: Self) -> (r: bool)
        ensures
            r == self.spec_dominates(other),
    {
        let no_worse = bits_le(self.delay, other.delay) && bits_le(self.loss, other.loss)
            && bits_le(self.utilization, other.utilization);
        let strictly_better = bits_lt(self.delay, other.delay) || bits_lt(self.loss, other.loss)
            || bits_lt(self.utilization, other.utilization);
        no_worse && strictly_better
    }

    /// Nothing dominates itself, and domination goes one way only.
    pub proof fn lemma_dominates_strict(a: Self, b: Self)
        ensures
            !a.spec_dominates(a),
            a.spec_dominates(b) ==> !b.spec_dominates(a),
    {
    }

    /// Domination is transitive.
    pub proof fn lemma_dominates_transitive(a: Self, b: Self, c: Self)
        requires
            a.spec_dominates(b),
            b.spec_dominates(c),
        ensures
            a.spec_dominates(c),
    {
    }
}

/// A path and its cost in three objectives.
#[derive(Debug, Clone)]
pub struct ParetoPath {
    pub nodes: Vec<u32>,
    pub objective: MultiObjectiveCost,
}

/// A loop-free alternate next hop and the cost of the path through it.
#[derive(Debug, Clone, Copy)]
pub struct LfaCandidate {
    pub next_hop: u32,
    pub total_cost: u64,
}

/// The input of a distance-vector computation.
#[derive(Debug, Clone)]
pub struct DvComputeInput {
    pub router_id: u32,
    pub infinity_metric: u64,
    pub link_costs: IdMap<u64>,
    pub neighbor_vectors: IdMap<IdMap<u64>>,
}

/// The best metric and next hop found for each destination.
pub type DvCandidates = IdMap<(u64, u32)>;

/// The distance-vector computation.
#[derive(Debug, Default, Clone, Copy)]
pub struct DvRouteComputeEngine;

/// A shortest-path tree rooted at a neighbour.
#[derive(Debug, Clone)]
pub struct NeighborRootTree {
    pub root: u32,
    pub link_cost: u64,
    pub dist: IdMap<u64>,
    pub prev: IdMap<u32>,
}

/// The input of a neighbour-rooted forest computation.
#[derive(Debug, Clone)]
pub struct NeighborRootForestInput {
    pub source_router_id: u32,
    pub graph: Graph,
    pub root_link_costs: IdMap<u64>,
}

/// The neighbour-rooted forest computation.
#[derive(Debug, Default, Clone, Copy)]
pub struct NeighborRootForestComputeEngine;

} // verus!
