use irp::id_map::IdMap;
use irp::id_set::IdSet;
use irp::protocols::route_compute::bellman_ford::expand_reachable;
use irp::protocols::route_compute::frontier::DistanceFrontier;
use irp::protocols::route_compute::ksp::{
    compare_path_candidate, join_root_and_spur, path_shares_root, YenPool,
};
use irp::protocols::route_compute::neighbor_forest::{
    build_path_nodes_via_neighbor_root, reconstruct_root_path,
};
use irp::protocols::route_compute::pareto::{dominated_by_set, pareto_front};
use irp::protocols::route_compute::path_order::path_order;
use irp::protocols::route_compute::spf::{
    build_children, mark_affected, needs_full_recompute, subtree_of, EdgeChange,
};
use irp::protocols::route_compute::strategy::{
    bellman_ford_entry, collect_scalar_nodes, entries_from_bellman_ford, entries_from_equal_cost,
    entries_from_single, first_hop_from_predecessor, hash_mix, paths_entry, pick_selected_hop,
    sort_by_hop, NextHopSelectionPolicy, ScalarRouteAlgorithm, ScalarRouteStrategyConfig,
};
use irp::protocols::route_compute::types::{
    BellmanFordResult, Graph, MultiObjectiveCost, NeighborRootTree, ParetoPath, PathCandidate,
    SpfTreeResult, WeightedSumCoefficients,
};

fn b(x: f64) -> u64 {
    x.to_bits()
}

fn id_map<V: Clone>(items: &[(u32, V)]) -> IdMap<V> {
    let mut m = IdMap::new();
    for (k, v) in items {
        m.insert(*k, v.clone());
    }
    m
}

fn graph(rows: &[(u32, &[(u32, f64)])]) -> Graph {
    let mut g = IdMap::new();
    for (u, row) in rows {
        let mut r = IdMap::new();
        for (v, c) in row.iter() {
            r.insert(*v, b(*c));
        }
        g.insert(*u, r);
    }
    g
}

fn reference_hash(src: u32, destination: u32, seed: u64) -> u64 {
    let mut x = seed.max(1);
    x ^= (src as u64).wrapping_mul(0x9E37_79B1_85EB_CA87);
    x = x.rotate_left(13);
    x ^= (destination as u64).wrapping_mul(0xC2B2_AE3D_27D4_EB4F);
    x ^= x >> 33;
    x = x.wrapping_mul(0xFF51_AFD7_ED55_8CCD);
    x ^= x >> 33;
    x
}

#[test]
fn hash_mix_is_the_specified_mix() {
    for (s, d, seed) in [(1, 4, 2026), (0, 0, 0), (u32::MAX, 7, u64::MAX), (3, 9, 1), (42, 42, 7)] {
        assert_eq!(hash_mix(s, d, seed), reference_hash(s, d, seed));
    }
    assert_eq!(hash_mix(1, 4, 0), hash_mix(1, 4, 1));
    assert_ne!(hash_mix(1, 4, 2026), hash_mix(4, 1, 2026));
}

#[test]
fn lowest_selection_takes_least_metric_then_least_hop() {
    let candidates = [(3, b(2.0)), (2, b(2.0)), (9, b(1.5)), (1, b(2.0)), (8, b(1.5))];
    assert_eq!(
        pick_selected_hop(1, 4, &candidates, NextHopSelectionPolicy::Lowest),
        Some((8, b(1.5)))
    );
    assert_eq!(pick_selected_hop(1, 4, &[], NextHopSelectionPolicy::Lowest), None);
    assert_eq!(pick_selected_hop(1, 4, &[], NextHopSelectionPolicy::Hash { seed: 1 }), None);
}

#[test]
fn hash_selection_indexes_the_hops_in_ascending_order() {
    let candidates = [(3, b(2.0)), (2, b(2.0))];
    let policy = NextHopSelectionPolicy::Hash { seed: 2026 };
    let idx = (reference_hash(1, 4, 2026) % 2) as usize;
    let want = [(2, b(2.0)), (3, b(2.0))][idx];
    let first = pick_selected_hop(1, 4, &candidates, policy);
    assert_eq!(first, Some(want));
    // The pick is a fixed element and stable across calls.
    for _ in 0..5 {
        assert_eq!(pick_selected_hop(1, 4, &candidates, policy), first);
    }
    assert_eq!(
        sort_by_hop(&[(3, 30), (1, 10), (3, 31), (2, 20), (1, 11)]),
        vec![(1, 10), (1, 11), (2, 20), (3, 30), (3, 31)]
    );
}

#[test]
fn diamond_routes_by_single_path_and_by_equal_cost() {
    // The distances of the diamond 1 -> {2, 3} -> 4, every link at cost 1.
    let dist = id_map(&[(1, b(0.0)), (2, b(1.0)), (3, b(1.0)), (4, b(2.0)), (5, b(f64::INFINITY))]);
    let first_hop = id_map(&[(2, 2u32), (3, 3), (4, 2)]);
    let entries = entries_from_single(1, &dist, &first_hop);
    let got: Vec<(u32, f64, u32, Vec<u32>)> = entries
        .iter()
        .map(|e| (e.destination, f64::from_bits(e.metric), e.selected_next_hop, e.next_hops.to_vec()))
        .collect();
    assert_eq!(
        got,
        vec![(2, 1.0, 2, vec![2]), (3, 1.0, 3, vec![3]), (4, 2.0, 2, vec![2])]
    );

    let first_hops = id_map(&[
        (1, IdSet::new()),
        (2, IdSet::from_slice(&[2])),
        (3, IdSet::from_slice(&[3])),
        (4, IdSet::from_slice(&[3, 2])),
    ]);
    let policy = NextHopSelectionPolicy::Hash { seed: 2026 };
    let entries = entries_from_equal_cost(1, &dist, &first_hops, policy);
    assert_eq!(entries.len(), 3);
    let to_4 = &entries[2];
    assert_eq!(to_4.destination, 4);
    assert_eq!(to_4.next_hops.to_vec(), vec![2, 3]);
    let want = [2, 3][(reference_hash(1, 4, 2026) % 2) as usize];
    assert_eq!(to_4.selected_next_hop, want);
    let again = entries_from_equal_cost(1, &dist, &first_hops, policy);
    assert_eq!(again[2].selected_next_hop, want);
    let lowest = entries_from_equal_cost(1, &dist, &first_hops, NextHopSelectionPolicy::Lowest);
    assert_eq!(lowest[2].selected_next_hop, 2);
}

#[test]
fn bellman_ford_routes_skip_what_a_negative_cycle_reaches() {
    let result = BellmanFordResult {
        dist: id_map(&[(1, b(0.0)), (2, b(1.0)), (3, b(-1.0)), (4, b(-5.0)), (5, b(2.0))]),
        predecessor: id_map(&[(2, 1u32), (3, 2), (4, 3), (5, 6), (6, 5)]),
        negative_cycle_nodes: IdSet::from_slice(&[4]),
    };
    assert!(result.has_negative_cycle());
    let entries = entries_from_bellman_ford(
        1,
        &result.dist,
        &result.predecessor,
        &result.negative_cycle_nodes,
    );
    let got: Vec<(u32, f64, u32)> = entries
        .iter()
        .map(|e| (e.destination, f64::from_bits(e.metric), e.selected_next_hop))
        .collect();
    assert_eq!(got, vec![(2, 1.0, 2), (3, -1.0, 2)]);
    assert!(bellman_ford_entry(1, 1, b(0.0), &result.predecessor, &IdSet::new()).is_none());
    assert_eq!(first_hop_from_predecessor(&result.predecessor, 1, 4), Some(2));
    assert_eq!(first_hop_from_predecessor(&result.predecessor, 1, 1), None);
    // A chain that never reaches the source ends after as many steps as
    // there are entries and one more.
    assert_eq!(first_hop_from_predecessor(&result.predecessor, 1, 5), None);
    assert_eq!(first_hop_from_predecessor(&result.predecessor, 1, 9), None);
}

#[test]
fn paths_give_one_candidate_per_first_hop() {
    let paths = [
        PathCandidate { nodes: vec![1, 2, 4], cost: b(2.0) },
        PathCandidate { nodes: vec![1, 3, 4], cost: b(2.0) },
        PathCandidate { nodes: vec![1, 2, 3, 4], cost: b(2.5) },
        PathCandidate { nodes: vec![1, 3, 5, 4], cost: b(1.0) },
        PathCandidate { nodes: vec![1], cost: b(0.0) },
        PathCandidate { nodes: vec![1, 7, 4], cost: b(f64::INFINITY) },
    ];
    let e = paths_entry(1, 4, &paths, true, NextHopSelectionPolicy::Lowest).expect("entry");
    assert_eq!(e.next_hops.to_vec(), vec![2, 3]);
    assert_eq!((e.selected_next_hop, f64::from_bits(e.metric)), (3, 1.0));
    let e = paths_entry(1, 4, &paths, false, NextHopSelectionPolicy::Lowest).expect("entry");
    assert_eq!(e.next_hops.to_vec(), vec![2, 3, 7]);
    assert!(paths_entry(1, 4, &paths[4..5], true, NextHopSelectionPolicy::Lowest).is_none());
    let hash = NextHopSelectionPolicy::Hash { seed: 5 };
    let e = paths_entry(1, 4, &paths, true, hash).expect("entry");
    let want = [(2, 2.0), (3, 1.0)][(reference_hash(1, 4, 5) % 2) as usize];
    assert_eq!((e.selected_next_hop, f64::from_bits(e.metric)), want);
}

#[test]
fn strategy_defaults_and_nodes() {
    let cfg = ScalarRouteStrategyConfig::default();
    assert!(matches!(cfg.algorithm, ScalarRouteAlgorithm::Dijkstra));
    assert!(matches!(cfg.selection, NextHopSelectionPolicy::Lowest));
    assert_eq!(WeightedSumCoefficients::default().weight, b(1.0));
    let g = graph(&[(1, &[(2, 1.0), (9, 1.0)]), (2, &[(4, 1.0)]), (7, &[])]);
    assert_eq!(collect_scalar_nodes(&g).to_vec(), vec![1, 2, 4, 7, 9]);
}

#[test]
fn forest_path_builds_source_neighbor_destination_chain() {
    // The tree of the neighbour 2 over the graph 1 -> 2 -> 4, the source 1
    // left out.
    let tree = NeighborRootTree {
        root: 2,
        link_cost: b(1.0),
        dist: id_map(&[(2, b(0.0)), (4, b(1.0))]),
        prev: id_map(&[(4, 2u32)]),
    };
    let path = build_path_nodes_via_neighbor_root(1, 4, &tree).expect("path should exist");
    assert_eq!(path, vec![1, 2, 4]);
    let cost = f64::from_bits(tree.link_cost) + f64::from_bits(*tree.dist.get(4).expect("dist"));
    assert_eq!(cost, 2.0);
    assert_eq!(build_path_nodes_via_neighbor_root(1, 2, &tree), Some(vec![1, 2]));
    assert_eq!(build_path_nodes_via_neighbor_root(1, 5, &tree), None);
}

#[test]
fn root_paths_follow_predecessors() {
    let prev = id_map(&[(4, 3u32), (3, 2), (2, 1), (8, 9), (9, 8), (6, 1)]);
    assert_eq!(reconstruct_root_path(1, 4, &prev), Some(vec![1, 2, 3, 4]));
    assert_eq!(reconstruct_root_path(1, 1, &prev), Some(vec![1]));
    assert_eq!(reconstruct_root_path(2, 4, &prev), Some(vec![2, 3, 4]));
    assert_eq!(reconstruct_root_path(1, 8, &prev), None);
    assert_eq!(reconstruct_root_path(1, 5, &prev), None);
    let tree = NeighborRootTree {
        root: 1,
        link_cost: b(1.0),
        dist: id_map(&[(4, b(3.0)), (6, b(1.0))]),
        prev,
    };
    // The source lies on the path from the root.
    assert_eq!(build_path_nodes_via_neighbor_root(3, 4, &tree), None);
    assert_eq!(build_path_nodes_via_neighbor_root(7, 6, &tree), Some(vec![7, 1, 6]));
    // No distance for the destination.
    assert_eq!(build_path_nodes_via_neighbor_root(7, 3, &tree), None);
}

#[test]
fn affected_nodes_are_endpoints_and_subtrees() {
    // 1 is the root; 2 and 3 hang below it, 4 and 5 below 2, 6 below 4.
    let parent = id_map(&[(2, 1u32), (3, 1), (4, 2), (5, 2), (6, 4)]);
    let children = build_children(&parent);
    assert_eq!(children.get(2).map(|s| s.to_vec()), Some(vec![4, 5]));
    assert_eq!(children.get(1).map(|s| s.to_vec()), Some(vec![2, 3]));
    assert!(children.get(6).is_none());
    assert_eq!(subtree_of(2, &parent).to_vec(), vec![2, 4, 5, 6]);
    assert_eq!(subtree_of(6, &parent).to_vec(), vec![6]);
    let up = |from, to, increase_or_removal| EdgeChange { from, to, increase_or_removal };
    // A tree edge whose cost rises takes the subtree below it along.
    assert_eq!(mark_affected(&parent, &[up(1, 2, true)]).to_vec(), vec![1, 2, 4, 5, 6]);
    assert_eq!(mark_affected(&parent, &[up(2, 1, true)]).to_vec(), vec![1, 2, 4, 5, 6]);
    // A cost that falls, or an edge outside the tree, affects its endpoints.
    assert_eq!(mark_affected(&parent, &[up(1, 2, false)]).to_vec(), vec![1, 2]);
    assert_eq!(mark_affected(&parent, &[up(3, 4, true)]).to_vec(), vec![3, 4]);
    // A node that was marked before does not hide what hangs below it.
    assert_eq!(
        mark_affected(&parent, &[up(9, 4, false), up(1, 2, true)]).to_vec(),
        vec![1, 2, 4, 5, 6, 9]
    );
    assert!(mark_affected(&parent, &[]).is_empty());
    assert!(needs_full_recompute(2, 4));
    assert!(!needs_full_recompute(1, 4));
    assert!(needs_full_recompute(1, 0));
    assert!(!needs_full_recompute(0, 0));
    assert!(needs_full_recompute(usize::MAX, usize::MAX));
    let tree = SpfTreeResult { dist: IdMap::new(), first_hop: IdMap::new(), parent };
    assert_eq!(tree.into_single().dist.len(), 0);
}

#[test]
fn frontier_hands_out_by_cost_then_node() {
    let mut f = DistanceFrontier::new();
    for (node, cost) in [(4, 2.0), (2, 1.0), (3, 1.0), (9, 0.0), (9, -0.0), (2, 1.0), (7, f64::INFINITY)] {
        f.push(node, b(cost));
    }
    assert_eq!(f.len(), 7);
    let mut got = Vec::new();
    while let Some((node, cost)) = f.pop() {
        got.push((node, f64::from_bits(cost)));
    }
    assert_eq!(
        got.iter().map(|x| x.0).collect::<Vec<u32>>(),
        vec![9, 9, 2, 2, 3, 4, 7]
    );
    assert!(got[0].1.is_sign_negative() && !got[1].1.is_sign_negative());
    let mut f = DistanceFrontier::new();
    for (node, cost) in [(1, 0.0), (2, 1.0), (3, 1.0), (4, 2.0)] {
        f.push(node, b(cost));
    }
    assert_eq!(f.pop_min(|node, _| node < 3), Some((3, b(1.0))));
    assert_eq!(f.pop_min(|_, _| true), None);
    assert_eq!(f.len(), 0);
}

fn pp(nodes: &[u32], delay: f64, loss: f64, utilization: f64) -> ParetoPath {
    ParetoPath {
        nodes: nodes.to_vec(),
        objective: MultiObjectiveCost { delay: b(delay), loss: b(loss), utilization: b(utilization) },
    }
}

#[test]
fn pareto_front_holds_no_dominated_path() {
    let solutions = [
        pp(&[1, 3, 4], 5.0, 0.1, 0.5),
        pp(&[1, 2, 4], 2.0, 0.3, 0.5),
        pp(&[1, 5, 4], 6.0, 0.3, 0.6),
        pp(&[1, 2, 4], 2.0, 0.3, 0.5),
        pp(&[1, 6, 4], 2.0, 0.3, 0.5),
        pp(&[1, 7, 4], f64::NAN, 0.0, 0.0),
    ];
    let front = pareto_front(&solutions, 10);
    let got: Vec<Vec<u32>> = front.iter().map(|p| p.nodes.clone()).collect();
    // The path through 5 is dominated; what is no number dominates nothing
    // and is dominated by nothing, and sorts last.
    assert_eq!(got, vec![vec![1, 2, 4], vec![1, 6, 4], vec![1, 3, 4], vec![1, 7, 4]]);
    for (i, a) in front.iter().enumerate() {
        for (j, c) in front.iter().enumerate() {
            if i != j {
                assert!(!a.objective.dominates(c.objective));
            }
        }
    }
    assert_eq!(pareto_front(&solutions, 2).len(), 2);
    assert!(pareto_front(&solutions, 0).is_empty());
    assert!(pareto_front(&[], 3).is_empty());
    let zero = MultiObjectiveCost::zero();
    assert!(dominated_by_set(zero, &[zero]));
    assert!(!dominated_by_set(zero, &[solutions[0].objective]));
    assert!(dominated_by_set(solutions[2].objective, &[solutions[1].objective]));
    assert!(!zero.dominates(zero));
}

#[test]
fn yen_pool_emits_no_duplicates_and_promotes_the_least() {
    let pc = |nodes: &[u32], cost: f64| PathCandidate { nodes: nodes.to_vec(), cost: b(cost) };
    let mut pool = YenPool::new(pc(&[1, 2, 4], 2.0));
    assert!(!pool.promote_best());
    assert!(pool.offer(pc(&[1, 2, 3, 4], 2.5)));
    assert!(pool.offer(pc(&[1, 3, 4], 2.0)));
    assert!(!pool.offer(pc(&[1, 3, 4], 1.0)));
    assert!(!pool.offer(pc(&[1, 2, 4], 2.0)));
    assert!(pool.seen(&vec![1, 3, 4]));
    assert!(!pool.seen(&vec![1, 3]));
    assert!(pool.promote_best());
    assert_eq!(pool.found(), 2);
    assert_eq!(pool.path_nodes(1), &vec![1, 3, 4]);
    assert!(pool.promote_best());
    assert!(!pool.promote_best());
    let paths = pool.into_paths();
    let got: Vec<(Vec<u32>, f64)> =
        paths.iter().map(|p| (p.nodes.clone(), f64::from_bits(p.cost))).collect();
    assert_eq!(
        got,
        vec![(vec![1, 2, 4], 2.0), (vec![1, 3, 4], 2.0), (vec![1, 2, 3, 4], 2.5)]
    );
    assert_eq!(compare_path_candidate(&paths[0], &paths[1]), -1);
    assert_eq!(compare_path_candidate(&paths[2], &paths[1]), 1);
    assert_eq!(compare_path_candidate(&paths[1], &paths[1]), 0);
    assert_eq!(path_order(&vec![1, 2], &vec![1, 2, 0]), -1);
    assert_eq!(path_order(&vec![2], &vec![1, 9]), 1);
    assert!(path_shares_root(&vec![1, 2, 4], &vec![1, 2, 3, 4], 1));
    assert!(!path_shares_root(&vec![1, 2], &vec![1, 2, 3, 4], 1));
    assert!(!path_shares_root(&vec![1, 3, 4], &vec![1, 2, 3, 4], 1));
    assert_eq!(join_root_and_spur(&vec![1, 2, 4], 1, &vec![2, 3, 4]), vec![1, 2, 3, 4]);
    assert_eq!(join_root_and_spur(&vec![1, 2, 4], 0, &vec![1, 3, 4]), vec![1, 3, 4]);
}

#[test]
fn negative_cycle_nodes_are_what_the_seeds_reach() {
    let g = graph(&[
        (1, &[(2, 1.0)]),
        (2, &[(3, -5.0), (6, f64::NAN)]),
        (3, &[(2, 1.0), (4, 1.0)]),
        (4, &[]),
        (5, &[(1, 1.0)]),
    ]);
    assert_eq!(expand_reachable(&g, &IdSet::from_slice(&[2, 3])).to_vec(), vec![2, 3, 4, 6]);
    assert_eq!(expand_reachable(&g, &IdSet::from_slice(&[5])).to_vec(), vec![1, 2, 3, 4, 5, 6]);
    assert_eq!(expand_reachable(&g, &IdSet::from_slice(&[9])).to_vec(), vec![9]);
    assert!(expand_reachable(&g, &IdSet::new()).is_empty());
}
