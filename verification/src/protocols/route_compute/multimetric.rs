//! Links with several metrics: which of them a constrained search may use.

use vstd::prelude::*;
use crate::id_map::{ids_sorted, IdMap};
use crate::model::metric::{bits_is_usable_cost, bits_lt, is_usable_cost, num_lt};
use crate::protocols::route_compute::types::{Graph, LinkConstraints, LinkMetrics, MultiMetricGraph};

verus! {

/// Whether a link with the metrics `m` may be used under the constraints
/// `c`: every metric is finite and not below zero, the bandwidth is not
/// below the least bandwidth, and delay, loss and utilization are not above
/// their bounds.
pub open spec fn edge_usable(m: LinkMetrics, c: LinkConstraints) -> bool {
    &&& is_usable_cost(m.weight)
    &&& is_usable_cost(m.bandwidth)
    &&& is_usable_cost(m.delay)
    &&& is_usable_cost(m.loss)
    &&& is_usable_cost(m.utilization)
    &&& c.min_bandwidth matches Some(least) ==> !num_lt(m.bandwidth, least)
    &&& c.max_delay matches Some(most) ==> !num_lt(most, m.delay)
    &&& c.max_loss matches Some(most) ==> !num_lt(most, m.loss)
    &&& c.max_utilization matches Some(most) ==> !num_lt(most, m.utilization)
}

/// Whether a link with the metrics `metrics` may be used under `constraints`.
pub fn metric_edge_usable(metrics: LinkMetrics, constraints: LinkConstraints) -> (r: bool)
    ensures
        r == edge_usable(metrics, constraints),
{
    if !bits_is_usable_cost(metrics.weight) || !bits_is_usable_cost(metrics.bandwidth)
        || !bits_is_usable_cost(metrics.delay) || !bits_is_usable_cost(metrics.loss)
        || !bits_is_usable_cost(metrics.utilization) {
        return false;
    }
    if let Some(least) = constraints.min_bandwidth {
        if bits_lt(metrics.bandwidth, least) {
            return false;
        }
    }
    if let Some(most) = constraints.max_delay {
        if bits_lt(most, metrics.delay) {
            return false;
        }
    }
    if let Some(most) = constraints.max_loss {
        if bits_lt(most, metrics.loss) {
            return false;
        }
    }
    if let Some(most) = constraints.max_utilization {
        if bits_lt(most, metrics.utilization) {
            return false;
        }
    }
    true
}

/// The usable links among the first `n` of `row`, each with its weight.
pub open spec fn usable_links(row: Seq<(u32, LinkMetrics)>, n: int, c: LinkConstraints) -> Seq<
    (u32, u64),
>
    decreases n,
{
    if n <= 0 {
        Seq::empty()
    } else if edge_usable(row[n - 1].1, c) {
        usable_links(row, n - 1, c).push((row[n - 1].0, row[n - 1].1.weight))
    } else {
        usable_links(row, n - 1, c)
    }
}

/// The usable links are links of the row, in their order.
pub proof fn lemma_usable_links(row: Seq<(u32, LinkMetrics)>, n: int, c: LinkConstraints)
    requires
        0 <= n <= row.len(),
        ids_sorted(row),
    ensures
        forall|j: int|
            0 <= j < usable_links(row, n, c).len() ==> exists|k: int|
                0 <= k < n && (#[trigger] usable_links(row, n, c)[j]).0 == (#[trigger] row[k]).0,
    decreases n,
{
    if n > 0 {
        lemma_usable_links(row, n - 1, c);
        let t = usable_links(row, n - 1, c);
        let s = usable_links(row, n, c);
        assert forall|j: int| 0 <= j < s.len() implies exists|k: int|
            0 <= k < n && (#[trigger] s[j]).0 == (#[trigger] row[k]).0 by {
            if j < t.len() {
                let k = choose|k: int| 0 <= k < n - 1 && t[j].0 == (#[trigger] row[k]).0;
                assert(s[j] == t[j]);
                assert(0 <= k < n && s[j].0 == row[k].0);
            } else {
                assert(s[j].0 == row[n - 1].0);
            }
        }
    }
}

/// The scalar graph of the usable links of `graph`: every node keeps its
/// row, and the row holds the weight of each link that may be used.
pub fn build_weight_graph_from_constraints(graph: &MultiMetricGraph, constraints: LinkConstraints) -> (filtered:
    Graph)
    ensures
        filtered@.len() == graph@.len(),
        forall|i: int|
            0 <= i < graph@.len() ==> (#[trigger] filtered@[i]).0 == graph@[i].0 && filtered@[i].1@
                == usable_links(graph@[i].1@, graph@[i].1@.len() as int, constraints),
{
    let mut filtered: Graph = IdMap::new();
    let n = graph.len();
    let mut i: usize = 0;
    while i < n
        invariant
            i <= n,
            n == graph@.len(),
            ids_sorted(graph@),
            filtered@.len() == i,
            forall|j: int|
                0 <= j < i ==> (#[trigger] filtered@[j]).0 == graph@[j].0 && filtered@[j].1@
                    == usable_links(graph@[j].1@, graph@[j].1@.len() as int, constraints),
        decreases n - i,
    {
        let u = graph.key_at(i);
        let row = graph.value_at(i);
        let mut out: IdMap<u64> = IdMap::new();
        let m = row.len();
        let mut k: usize = 0;
        while k < m
            invariant
                k <= m,
                m == row@.len(),
                ids_sorted(row@),
                out@ == usable_links(row@, k as int, constraints),
            decreases m - k,
        {
            let v = row.key_at(k);
            let metrics = *row.value_at(k);
            if metric_edge_usable(metrics, constraints) {
                proof {
                    lemma_usable_links(row@, k as int, constraints);
                    assert forall|j: int| 0 <= j < out@.len() implies (#[trigger] out@[j]).0 < v by {
                        let w = choose|w: int| 0 <= w < k && out@[j].0 == (#[trigger] row@[w]).0;
                        assert(row@[w].0 < row@[k as int].0);
                    }
                }
                out.append_greatest(v, metrics.weight);
            }
            k += 1;
        }
        proof {
            assert forall|j: int| 0 <= j < filtered@.len() implies (#[trigger] filtered@[j]).0 < u by {
                assert(graph@[j].0 < graph@[i as int].0);
            }
        }
        filtered.append_greatest(u, out);
        i += 1;
    }
    filtered
}

} // verus!
